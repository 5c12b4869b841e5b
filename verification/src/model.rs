//! Turning config directives into the set of bindings sway would actually act
//! on.
//!
//! The trap this module exists to avoid is `map[chord] = last_one_wins`. sway
//! keeps bindings in *five separate lists* per mode, and a binding only ever
//! collides with, or is removed by, something in its own list
//! (`binding_upsert` / `binding_remove`):
//!
//! | list       | holds                                                     |
//! |------------|-----------------------------------------------------------|
//! | `Keycode`  | `bindcode`, and `bindsym --to-code` that resolved cleanly |
//! | `Keysym`   | plain `bindsym`, and `--to-code` that did not resolve     |
//! | `Mouse`    | anything whose first key is a button                      |
//! | `Switch`   | `bindswitch`                                              |
//! | `Gesture`  | `bindgesture`                                             |

use vstd::prelude::*;
use crate::source::{origin_spec, Directive, DirectiveView, directives_view};
use crate::text::{
    ascii_lower, ascii_lower_chars, chars_of, decimal, decimal_chars, eq_chars, eq_lit,
    extend_chars, join, join_chars, parse_u32, parse_u32_chars, seqs, slice_of, split_char,
    split_on, split_whitespace, split_ws, starts_with, starts_with_lit, string_of, strings_of,
    strs, copy_strings,
};

verus! {

/// What the model needs from xkb: sway puts a `--to-code` binding in the
/// keycode list *only* when its keysym maps to exactly one keycode, and falls
/// back to the keysym list otherwise.
///
/// Implemented by [`Optimistic`] here and by the keymap-backed resolver of the
/// program, so the parser is testable without libxkbcommon. Each answer is a
/// function of the question: the `spec_*` functions name it.
pub trait Resolver {
    spec fn spec_resolves(&self, sym: Seq<char>) -> bool;

    spec fn spec_keycode_for(&self, sym: Seq<char>) -> Option<u32>;

    spec fn spec_keycode_name(&self, code: u32) -> Option<Seq<char>>;

    /// Does this keysym name translate to exactly one keycode?
    fn resolves_to_single_keycode(&self, sym: &str) -> (r: bool)
        ensures
            r == self.spec_resolves(sym@),
    ;

    /// *Which* keycode, when there is exactly one.
    fn keycode_for(&self, sym: &str) -> (r: Option<u32>)
        ensures
            r == self.spec_keycode_for(sym@),
    ;

    /// Name of the keysym a raw keycode produces, for displaying `bindcode`.
    fn keycode_name(&self, code: u32) -> (r: Option<String>)
        ensures
            match r {
                Some(s) => self.spec_keycode_name(code) == Some(s@),
                None => self.spec_keycode_name(code) is None,
            },
    ;
}

/// Assumes every keysym translates cleanly, and cannot name keycodes.
///
/// Erring optimistic is deliberate. Assuming translation *fails* would file
/// `--to-code` bindings next to plain `bindsym` ones, where they would
/// overwrite each other — merging two bindings sway keeps apart.
pub struct Optimistic;

impl Resolver for Optimistic {
    open spec fn spec_resolves(&self, sym: Seq<char>) -> bool {
        true
    }

    open spec fn spec_keycode_for(&self, sym: Seq<char>) -> Option<u32> {
        None
    }

    open spec fn spec_keycode_name(&self, code: u32) -> Option<Seq<char>> {
        None
    }

    fn resolves_to_single_keycode(&self, _sym: &str) -> (r: bool) {
        true
    }

    fn keycode_for(&self, _sym: &str) -> (r: Option<u32>) {
        None
    }

    fn keycode_name(&self, _code: u32) -> (r: Option<String>) {
        None
    }
}

/// A resolver's answers, as functions of the question.
pub struct ResolverView {
    pub resolves: spec_fn(Seq<char>) -> bool,
    pub keycode_for: spec_fn(Seq<char>) -> Option<u32>,
    pub keycode_name: spec_fn(u32) -> Option<Seq<char>>,
}

pub open spec fn resolver_view<R: Resolver + ?Sized>(r: &R) -> ResolverView {
    ResolverView {
        resolves: |s: Seq<char>| r.spec_resolves(s),
        keycode_for: |s: Seq<char>| r.spec_keycode_for(s),
        keycode_name: |c: u32| r.spec_keycode_name(c),
    }
}

/// Which of sway's per-mode lists a binding lives in.
#[derive(Debug, Clone, Copy, PartialEq, Eq, Structural, PartialOrd, Ord, Hash)]
pub enum Bucket {
    Keycode,
    Keysym,
    Mouse,
    Switch,
    Gesture,
}

/// One key in a chord. `Code` is a raw keycode from `bindcode`; `Sym` is a
/// keysym name as written.
#[derive(Debug, Clone, PartialOrd, Ord, Hash, PartialEq, Eq)]
pub enum Key {
    Code(u32),
    Sym(String),
}

pub enum KeyView {
    Code(u32),
    Sym(Seq<char>),
}

impl View for Key {
    type V = KeyView;

    open spec fn view(&self) -> KeyView {
        match self {
            Key::Code(c) => KeyView::Code(*c),
            Key::Sym(s) => KeyView::Sym(s@),
        }
    }
}

pub open spec fn keys_view(v: Seq<Key>) -> Seq<KeyView> {
    v.map_values(|k: Key| k@)
}

/// How a key reads: a keycode as its number, a keysym as written.
pub open spec fn key_text(k: KeyView) -> Seq<char> {
    match k {
        KeyView::Code(c) => decimal(c as nat),
        KeyView::Sym(s) => s,
    }
}

impl Key {
    /// How the key reads: a keycode as its number, a keysym as written.
    pub fn display(&self) -> (r: String)
        ensures
            r@ == key_text(self@),
    {
        match self {
            Key::Code(c) => string_of(&decimal_chars(*c)),
            Key::Sym(s) => crate::text::copy_string(s),
        }
    }

    /// A copy of the key.
    pub fn duplicate(&self) -> (r: Key)
        ensures
            r@ == self@,
    {
        match self {
            Key::Code(c) => Key::Code(*c),
            Key::Sym(s) => Key::Sym(crate::text::copy_string(s)),
        }
    }
}

// --------------------------------------------------------------- key order
/// Lexicographic order on characters (the order of `String`).
pub open spec fn chars_lt(a: Seq<char>, b: Seq<char>) -> bool
    decreases a.len(),
{
    if a.len() == 0 {
        b.len() > 0
    } else if b.len() == 0 {
        false
    } else if a[0] != b[0] {
        (a[0] as u32) < (b[0] as u32)
    } else {
        chars_lt(a.drop_first(), b.drop_first())
    }
}

/// The derived order of `Key`: keycodes first, by number, then keysyms by
/// name.
pub open spec fn key_lt(a: KeyView, b: KeyView) -> bool {
    match (a, b) {
        (KeyView::Code(x), KeyView::Code(y)) => x < y,
        (KeyView::Code(_), KeyView::Sym(_)) => true,
        (KeyView::Sym(_), KeyView::Code(_)) => false,
        (KeyView::Sym(s), KeyView::Sym(t)) => chars_lt(s, t),
    }
}

/// Where `k` goes in a sorted sequence: after every element not greater
/// than it.
pub open spec fn insert_at(s: Seq<KeyView>, k: KeyView) -> nat
    decreases s.len(),
{
    if s.len() == 0 {
        0
    } else if key_lt(k, s.last()) {
        insert_at(s.drop_last(), k)
    } else {
        s.len()
    }
}

/// `keys.sort()`: insertion of each key, in order, into the sorted prefix.
pub open spec fn sort_keys(s: Seq<KeyView>) -> Seq<KeyView>
    decreases s.len(),
{
    if s.len() == 0 {
        seq![]
    } else {
        let p = sort_keys(s.drop_last());
        p.insert(insert_at(p, s.last()) as int, s.last())
    }
}

fn chars_less(a: &Vec<char>, b: &Vec<char>) -> (r: bool)
    ensures
        r == chars_lt(a@, b@),
{
    let mut i: usize = 0;
    proof {
        assert(a@.skip(0) == a@);
        assert(b@.skip(0) == b@);
    }
    while i < a.len() && i < b.len() && a[i] == b[i]
        invariant
            i <= a.len(),
            i <= b.len(),
            chars_lt(a@, b@) == chars_lt(a@.skip(i as int), b@.skip(i as int)),
        decreases a.len() - i,
    {
        proof {
            assert(a@.skip(i as int).drop_first() == a@.skip(i + 1));
            assert(b@.skip(i as int).drop_first() == b@.skip(i + 1));
        }
        i += 1;
    }
    if i == a.len() {
        i < b.len()
    } else if i == b.len() {
        false
    } else {
        (a[i] as u32) < (b[i] as u32)
    }
}

fn key_less(a: &Key, b: &Key) -> (r: bool)
    ensures
        r == key_lt(a@, b@),
{
    match (a, b) {
        (Key::Code(x), Key::Code(y)) => *x < *y,
        (Key::Code(_), Key::Sym(_)) => true,
        (Key::Sym(_), Key::Code(_)) => false,
        (Key::Sym(s), Key::Sym(t)) => chars_less(&chars_of(s.as_str()), &chars_of(t.as_str())),
    }
}

proof fn lemma_insert_at(s: Seq<KeyView>, k: KeyView)
    ensures
        insert_at(s, k) <= s.len(),
    decreases s.len(),
{
    if s.len() > 0 && key_lt(k, s.last()) {
        lemma_insert_at(s.drop_last(), k);
    }
}

/// A sequence of keys in the order of `key_lt`: nothing comes after a key
/// that is less than it.
pub open spec fn keys_sorted(s: Seq<KeyView>) -> bool {
    forall|i: int, j: int| 0 <= i < j < s.len() ==> !key_lt(#[trigger] s[j], #[trigger] s[i])
}

proof fn lemma_chars_lt_irrefl(a: Seq<char>)
    ensures
        !chars_lt(a, a),
    decreases a.len(),
{
    if a.len() > 0 {
        lemma_chars_lt_irrefl(a.drop_first());
    }
}

proof fn lemma_chars_lt_trans(a: Seq<char>, b: Seq<char>, c: Seq<char>)
    requires
        chars_lt(a, b),
        chars_lt(b, c),
    ensures
        chars_lt(a, c),
    decreases a.len(),
{
    if a.len() > 0 && b.len() > 0 && c.len() > 0 && a[0] == b[0] && b[0] == c[0] {
        lemma_chars_lt_trans(a.drop_first(), b.drop_first(), c.drop_first());
    }
}

proof fn lemma_char_code_differs(c: char, d: char)
    requires
        c != d,
    ensures
        (c as u32) != (d as u32),
{
}

proof fn lemma_chars_lt_total(a: Seq<char>, b: Seq<char>)
    requires
        a != b,
    ensures
        chars_lt(a, b) || chars_lt(b, a),
    decreases a.len(),
{
    if a.len() > 0 && b.len() > 0 {
        if a[0] == b[0] {
            if a.drop_first() == b.drop_first() {
                assert(a =~= seq![a[0]] + a.drop_first());
                assert(b =~= seq![b[0]] + b.drop_first());
            }
            lemma_chars_lt_total(a.drop_first(), b.drop_first());
        } else {
            lemma_char_code_differs(a[0], b[0]);
        }
    } else if a.len() == 0 && b.len() == 0 {
        assert(a =~= b);
    }
}

proof fn lemma_key_lt_order(a: KeyView, b: KeyView, c: KeyView)
    ensures
        !key_lt(a, a),
        key_lt(a, b) && key_lt(b, c) ==> key_lt(a, c),
        a != b ==> key_lt(a, b) || key_lt(b, a),
{
    match a {
        KeyView::Sym(s) => {
            lemma_chars_lt_irrefl(s);
            if let KeyView::Sym(t) = b {
                if s != t {
                    lemma_chars_lt_total(s, t);
                }
                if let KeyView::Sym(u) = c {
                    if chars_lt(s, t) && chars_lt(t, u) {
                        lemma_chars_lt_trans(s, t, u);
                    }
                }
            }
        },
        KeyView::Code(_) => {},
    }
}

proof fn lemma_insert_at_place(s: Seq<KeyView>, k: KeyView)
    ensures
        insert_at(s, k) <= s.len(),
        insert_at(s, k) > 0 ==> !key_lt(k, s[insert_at(s, k) - 1]),
        forall|i: int| insert_at(s, k) <= i < s.len() ==> key_lt(k, #[trigger] s[i]),
    decreases s.len(),
{
    if s.len() > 0 && key_lt(k, s.last()) {
        lemma_insert_at_place(s.drop_last(), k);
        assert forall|i: int| insert_at(s, k) <= i < s.len() implies key_lt(k, #[trigger] s[i]) by {
            if i < s.len() - 1 {
                assert(s[i] == s.drop_last()[i]);
            }
        }
    }
}

/// `sort_keys` puts the keys in order and neither loses nor adds one.
pub proof fn lemma_sort_keys(s: Seq<KeyView>)
    ensures
        keys_sorted(sort_keys(s)),
        sort_keys(s).to_multiset() == s.to_multiset(),
    decreases s.len(),
{
    if s.len() > 0 {
        let p = sort_keys(s.drop_last());
        let k = s.last();
        lemma_sort_keys(s.drop_last());
        lemma_insert_at_place(p, k);
        let q = insert_at(p, k) as int;
        let t = p.insert(q, k);
        vstd::seq_lib::to_multiset_insert(p, q, k);
        vstd::seq_lib::to_multiset_build(s.drop_last(), k);
        assert(s.drop_last().push(k) =~= s);
        assert forall|i: int, j: int| 0 <= i < j < t.len() implies !key_lt(
            #[trigger] t[j],
            #[trigger] t[i],
        ) by {
            if j < q {
                assert(t[i] == p[i] && t[j] == p[j]);
            } else if j == q {
                // t[j] == k, t[i] == p[i] <= p[q - 1] <= k
                assert(t[i] == p[i]);
                lemma_key_lt_order(k, p[i], p[q - 1]);
                lemma_key_lt_order(p[i], p[q - 1], k);
                lemma_key_lt_order(p[q - 1], p[i], k);
                lemma_key_lt_order(k, p[q - 1], p[i]);
            } else if i == q {
                assert(t[j] == p[j - 1]);
                lemma_key_lt_order(k, p[j - 1], k);
            } else if i < q {
                assert(t[i] == p[i] && t[j] == p[j - 1]);
            } else {
                assert(t[i] == p[i - 1] && t[j] == p[j - 1]);
            }
        }
        assert(sort_keys(s) == t);
        assert(t.to_multiset() == s.to_multiset());
    } else {
        assert(s =~= sort_keys(s));
    }
}

/// `keys.sort()`.
fn sort_key_vec(keys: Vec<Key>) -> (r: Vec<Key>)
    ensures
        keys_view(r@) == sort_keys(keys_view(keys@)),
{
    let mut r: Vec<Key> = Vec::new();
    let mut i: usize = 0;
    while i < keys.len()
        invariant
            i <= keys.len(),
            keys_view(r@) == sort_keys(keys_view(keys@).take(i as int)),
        decreases keys.len() - i,
    {
        let k = keys[i].duplicate();
        let ghost p = keys_view(r@);
        let mut j = r.len();
        proof {
            assert(p.take(j as int) == p);
        }
        while j > 0 && key_less(&k, &r[j - 1])
            invariant
                j <= r.len(),
                p == keys_view(r@),
                insert_at(p, k@) == insert_at(p.take(j as int), k@),
            decreases j,
        {
            proof {
                assert(p.take(j as int).drop_last() == p.take(j - 1));
                assert(p.take(j as int).last() == r@[j - 1]@);
            }
            j -= 1;
        }
        proof {
            if j > 0 {
                assert(p.take(j as int).last() == r@[j - 1]@);
            }
            let q = keys_view(keys@).take(i + 1);
            assert(q.drop_last() == keys_view(keys@).take(i as int));
            assert(q.last() == k@);
            lemma_insert_at(p, k@);
        }
        let ghost kv = k@;
        r.insert(j, k);
        proof {
            assert(keys_view(r@) =~= p.insert(j as int, kv));
        }
        i += 1;
    }
    proof {
        assert(keys_view(keys@).take(keys.len() as int) == keys_view(keys@));
    }
    r
}

// -------------------------------------------------------------- modifiers
/// Modifier mask. Names are aliases for bits, not distinct modifiers — sway
/// resolves `Ctrl` and `Control` to the same bit, so comparing masks (rather
/// than the strings people wrote) is the only correct way to match chords.
#[derive(Debug, Clone, Copy, PartialEq, Eq, Structural, PartialOrd, Ord, Hash)]
pub struct Mods(pub u32);

impl Default for Mods {
    fn default() -> (m: Mods)
        ensures
            m.0 == 0,
    {
        Mods(0)
    }
}

/// sway's modifier table, on the lower-cased name.
pub open spec fn mod_bit(lower: Seq<char>) -> Option<u32> {
    if lower == "shift"@ {
        Some(1)
    } else if lower == "lock"@ {
        Some(2)
    } else if lower == "control"@ || lower == "ctrl"@ {
        Some(4)
    } else if lower == "mod1"@ || lower == "alt"@ {
        Some(8)
    } else if lower == "mod2"@ {
        Some(16)
    } else if lower == "mod3"@ {
        Some(32)
    } else if lower == "mod4"@ || lower == "super"@ {
        Some(64)
    } else if lower == "mod5"@ {
        Some(128)
    } else {
        None
    }
}

pub open spec fn name_if(mask: u32, bit: u32, name: Seq<char>) -> Seq<Seq<char>> {
    if mask & bit != 0 {
        seq![name]
    } else {
        seq![]
    }
}

/// Display names of the bits in `mask`, in a fixed order.
pub open spec fn names_spec(mask: u32) -> Seq<Seq<char>> {
    name_if(mask, 64, "Super"@) + name_if(mask, 4, "Ctrl"@) + name_if(mask, 8, "Alt"@) + name_if(
        mask,
        1,
        "Shift"@,
    ) + name_if(mask, 2, "Lock"@) + name_if(mask, 16, "Mod2"@) + name_if(mask, 32, "Mod3"@)
        + name_if(mask, 128, "Mod5"@)
}

pub open spec fn strs_static(v: Seq<&str>) -> Seq<Seq<char>> {
    v.map_values(|s: &str| s@)
}

impl Mods {
    /// sway's modifier table, matched case-insensitively.
    fn from_name(name: &Vec<char>) -> (r: Option<u32>)
        ensures
            r == mod_bit(ascii_lower(name@)),
    {
        let l = ascii_lower_chars(name);
        if eq_lit(&l, "shift") {
            Some(1)
        } else if eq_lit(&l, "lock") {
            Some(2)
        } else if eq_lit(&l, "control") || eq_lit(&l, "ctrl") {
            Some(4)
        } else if eq_lit(&l, "mod1") || eq_lit(&l, "alt") {
            Some(8)
        } else if eq_lit(&l, "mod2") {
            Some(16)
        } else if eq_lit(&l, "mod3") {
            Some(32)
        } else if eq_lit(&l, "mod4") || eq_lit(&l, "super") {
            Some(64)
        } else if eq_lit(&l, "mod5") {
            Some(128)
        } else {
            None
        }
    }

    /// Display names, in a fixed order so the same chord always reads the same.
    pub fn names(self) -> (r: Vec<&'static str>)
        ensures
            strs_static(r@) == names_spec(self.0),
    {
        let mut r: Vec<&'static str> = Vec::new();
        let m = self.0;
        push_if(&mut r, m & 64 != 0, "Super");
        push_if(&mut r, m & 4 != 0, "Ctrl");
        push_if(&mut r, m & 8 != 0, "Alt");
        push_if(&mut r, m & 1 != 0, "Shift");
        push_if(&mut r, m & 2 != 0, "Lock");
        push_if(&mut r, m & 16 != 0, "Mod2");
        push_if(&mut r, m & 32 != 0, "Mod3");
        push_if(&mut r, m & 128 != 0, "Mod5");
        proof {
            assert(strs_static(r@) =~= names_spec(m));
        }
        r
    }
}

fn push_if(r: &mut Vec<&'static str>, cond: bool, name: &'static str)
    ensures
        strs_static(final(r)@) == strs_static(old(r)@) + (if cond {
            seq![name@]
        } else {
            seq![]
        }),
{
    if cond {
        r.push(name);
        proof {
            assert(strs_static(r@) =~= strs_static(old(r)@) + seq![name@]);
        }
    } else {
        proof {
            assert(strs_static(r@) =~= strs_static(old(r)@) + seq![]);
        }
    }
}

// ------------------------------------------------------------------ flags
#[derive(Debug)]
pub struct Flags {
    pub release: bool,
    pub locked: bool,
    pub inhibited: bool,
    pub no_repeat: bool,
    pub to_code: bool,
    pub border: bool,
    pub contents: bool,
    pub titlebar: bool,
    /// `bindswitch --reload`: also run the binding when the config reloads.
    pub reload: bool,
    /// `bindgesture --exact`.
    pub exact: bool,
    /// `--input-device=`; `*` means any, which is the default.
    pub input: String,
    /// `GroupN` / `Mode_switch` in the chord, stored 0-based as sway does.
    pub group: Option<u8>,
}

pub struct FlagsView {
    pub release: bool,
    pub locked: bool,
    pub inhibited: bool,
    pub no_repeat: bool,
    pub to_code: bool,
    pub border: bool,
    pub contents: bool,
    pub titlebar: bool,
    pub reload: bool,
    pub exact: bool,
    pub input: Seq<char>,
    pub group: Option<u8>,
}

impl View for Flags {
    type V = FlagsView;

    open spec fn view(&self) -> FlagsView {
        FlagsView {
            release: self.release,
            locked: self.locked,
            inhibited: self.inhibited,
            no_repeat: self.no_repeat,
            to_code: self.to_code,
            border: self.border,
            contents: self.contents,
            titlebar: self.titlebar,
            reload: self.reload,
            exact: self.exact,
            input: self.input@,
            group: self.group,
        }
    }
}

impl Default for Flags {
    fn default() -> (f: Flags)
        ensures
            f@ == (FlagsView {
                release: false,
                locked: false,
                inhibited: false,
                no_repeat: false,
                to_code: false,
                border: false,
                contents: false,
                titlebar: false,
                reload: false,
                exact: false,
                input: Seq::<char>::empty(),
                group: None,
            }),
    {
        Flags {
            release: false,
            locked: false,
            inhibited: false,
            no_repeat: false,
            to_code: false,
            border: false,
            contents: false,
            titlebar: false,
            reload: false,
            exact: false,
            input: String::new(),
            group: None,
        }
    }
}

/// The subset `binding_key_compare` treats as conflict-generating, one bit
/// each. Two bindings differing in any of these do not collide.
pub open spec fn conflict_bits(f: FlagsView) -> u32 {
    ((if f.release { 1u32 } else { 0u32 }) + (if f.locked { 2u32 } else { 0u32 }) + (if f.inhibited {
        4u32
    } else {
        0u32
    }) + (if f.border { 8u32 } else { 0u32 }) + (if f.contents { 16u32 } else { 0u32 }) + (
    if f.titlebar {
        32u32
    } else {
        0u32
    })) as u32
}

impl Flags {
    fn conflict_bits(&self) -> (r: u32)
        ensures
            r == conflict_bits(self@),
    {
        (if self.release { 1u32 } else { 0u32 }) + (if self.locked { 2u32 } else { 0u32 }) + (
        if self.inhibited {
            4u32
        } else {
            0u32
        }) + (if self.border { 8u32 } else { 0u32 }) + (if self.contents { 16u32 } else { 0u32 }) + (
        if self.titlebar {
            32u32
        } else {
            0u32
        })
    }

    fn duplicate(&self) -> (r: Flags)
        ensures
            r@ == self@,
    {
        Flags {
            release: self.release,
            locked: self.locked,
            inhibited: self.inhibited,
            no_repeat: self.no_repeat,
            to_code: self.to_code,
            border: self.border,
            contents: self.contents,
            titlebar: self.titlebar,
            reload: self.reload,
            exact: self.exact,
            input: crate::text::copy_string(&self.input),
            group: self.group,
        }
    }
}

// ----------------------------------------------------------------- binding
#[derive(Debug, Clone, Copy, PartialEq, Eq, Structural)]
pub enum Kind {
    /// Keys and mouse buttons.
    Chord,
    /// `bindswitch lid:on`.
    Switch,
    /// `bindgesture swipe:3:left`.
    Gesture,
}

#[derive(Debug)]
pub struct Binding {
    pub mode: String,
    pub kind: Kind,
    pub bucket: Bucket,
    /// Display form: `Super+Shift+r`, `lid:on`, `swipe:3:left`.
    pub chord: String,
    /// Modifier names in display order; empty for switches and gestures.
    pub modifiers: Vec<String>,
    /// Keys as written, so a consumer sees `51` for `bindcode 51` even when
    /// `chord` renders it as `backslash`.
    pub keys: Vec<Key>,
    pub flags: Flags,
    pub command: String,
    pub comment: Vec<String>,
    pub origin: String,
    /// Index of the binding that wins this chord, when this one never fires.
    /// `None` means "not shadowed as far as we know".
    pub shadowed_by: Option<usize>,
    /// Modifier mask, for comparison rather than display.
    pub mods: Mods,
    /// Keys in sway's canonical sorted order — the collision key, not the
    /// display form.
    pub sorted_keys: Vec<Key>,
}

pub struct BindingView {
    pub mode: Seq<char>,
    pub kind: Kind,
    pub bucket: Bucket,
    pub chord: Seq<char>,
    pub modifiers: Seq<Seq<char>>,
    pub keys: Seq<KeyView>,
    pub flags: FlagsView,
    pub command: Seq<char>,
    pub comment: Seq<Seq<char>>,
    pub origin: Seq<char>,
    pub shadowed_by: Option<usize>,
    pub mods: u32,
    pub sorted_keys: Seq<KeyView>,
}

impl View for Binding {
    type V = BindingView;

    open spec fn view(&self) -> BindingView {
        BindingView {
            mode: self.mode@,
            kind: self.kind,
            bucket: self.bucket,
            chord: self.chord@,
            modifiers: strs(self.modifiers@),
            keys: keys_view(self.keys@),
            flags: self.flags@,
            command: self.command@,
            comment: strs(self.comment@),
            origin: self.origin@,
            shadowed_by: self.shadowed_by,
            mods: self.mods.0,
            sorted_keys: keys_view(self.sorted_keys@),
        }
    }
}

pub open spec fn bindings_view(v: Seq<Binding>) -> Seq<BindingView> {
    v.map_values(|b: Binding| b@)
}

/// `binding_key_compare` within one mode's lists: each mode keeps its own
/// five lists, so the mode is part of the key, then input device, list,
/// conflict-generating flags, layout group, modifier mask, and the sorted key
/// list.
pub open spec fn same_key(a: BindingView, b: BindingView) -> bool {
    &&& a.mode == b.mode
    &&& a.flags.input == b.flags.input
    &&& a.bucket == b.bucket
    &&& conflict_bits(a.flags) == conflict_bits(b.flags)
    &&& a.flags.group == b.flags.group
    &&& a.mods == b.mods
    &&& a.sorted_keys == b.sorted_keys
}

fn same_keys(a: &Vec<Key>, b: &Vec<Key>) -> (r: bool)
    ensures
        r == (keys_view(a@) == keys_view(b@)),
{
    if a.len() != b.len() {
        proof {
            assert(keys_view(a@).len() != keys_view(b@).len());
        }
        return false;
    }
    let mut i: usize = 0;
    while i < a.len()
        invariant
            i <= a.len() == b.len(),
            forall|k: int| 0 <= k < i ==> a@[k]@ == b@[k]@,
        decreases a.len() - i,
    {
        let eq = match (&a[i], &b[i]) {
            (Key::Code(x), Key::Code(y)) => *x == *y,
            (Key::Sym(x), Key::Sym(y)) => eq_chars(&chars_of(x.as_str()), &chars_of(y.as_str())),
            _ => false,
        };
        if !eq {
            proof {
                assert(keys_view(a@)[i as int] != keys_view(b@)[i as int]);
            }
            return false;
        }
        i += 1;
    }
    proof {
        assert(keys_view(a@) =~= keys_view(b@));
    }
    true
}

impl Binding {
    /// Whether the two bindings share sway's collision key.
    fn collides_with(&self, other: &Binding) -> (r: bool)
        ensures
            r == same_key(self@, other@),
    {
        eq_chars(&chars_of(self.mode.as_str()), &chars_of(other.mode.as_str()))
            && eq_chars(&chars_of(self.flags.input.as_str()), &chars_of(other.flags.input.as_str()))
            && self.bucket == other.bucket && self.flags.conflict_bits()
            == other.flags.conflict_bits() && self.flags.group == other.flags.group
            && self.mods.0 == other.mods.0 && same_keys(&self.sorted_keys, &other.sorted_keys)
    }
}

pub struct Bindings {
    pub list: Vec<Binding>,
    /// Lines that looked like bindings but could not be understood. A help
    /// sheet that quietly drops one is worse than no help sheet.
    pub unparsed: Vec<String>,
}

// ------------------------------------------------------------------ verbs
#[derive(Debug, Clone, Copy, PartialEq, Eq, Structural)]
pub enum Verb {
    Sym,
    Code,
    Switch,
    Gesture,
}

/// The `bind*` / `unbind*` verbs: which kind, and whether it removes.
pub open spec fn verb_spec(t: Seq<char>) -> Option<(Verb, bool)> {
    if t == "bindsym"@ {
        Some((Verb::Sym, false))
    } else if t == "bindcode"@ {
        Some((Verb::Code, false))
    } else if t == "unbindsym"@ {
        Some((Verb::Sym, true))
    } else if t == "unbindcode"@ {
        Some((Verb::Code, true))
    } else if t == "bindswitch"@ {
        Some((Verb::Switch, false))
    } else if t == "unbindswitch"@ {
        Some((Verb::Switch, true))
    } else if t == "bindgesture"@ {
        Some((Verb::Gesture, false))
    } else if t == "unbindgesture"@ {
        Some((Verb::Gesture, true))
    } else {
        None
    }
}

fn verb_of(t: &Vec<char>) -> (r: Option<(Verb, bool)>)
    ensures
        r == verb_spec(t@),
{
    if eq_lit(t, "bindsym") {
        Some((Verb::Sym, false))
    } else if eq_lit(t, "bindcode") {
        Some((Verb::Code, false))
    } else if eq_lit(t, "unbindsym") {
        Some((Verb::Sym, true))
    } else if eq_lit(t, "unbindcode") {
        Some((Verb::Code, true))
    } else if eq_lit(t, "bindswitch") {
        Some((Verb::Switch, false))
    } else if eq_lit(t, "unbindswitch") {
        Some((Verb::Switch, true))
    } else if eq_lit(t, "bindgesture") {
        Some((Verb::Gesture, false))
    } else if eq_lit(t, "unbindgesture") {
        Some((Verb::Gesture, true))
    } else {
        None
    }
}

// ------------------------------------------------------------------ quotes
pub open spec fn is_quote(c: char) -> bool {
    c == '"' || c == '\''
}

pub open spec fn lead_q(s: Seq<char>) -> nat
    decreases s.len(),
{
    if s.len() > 0 && is_quote(s[0]) {
        1 + lead_q(s.drop_first())
    } else {
        0
    }
}

pub open spec fn trail_q(s: Seq<char>) -> nat
    decreases s.len(),
{
    if s.len() > 0 && is_quote(s.last()) {
        1 + trail_q(s.drop_last())
    } else {
        0
    }
}

/// `s.trim_matches(['"', '\''])`.
pub open spec fn trim_quotes(s: Seq<char>) -> Seq<char> {
    let a = s.skip(lead_q(s) as int);
    a.take(a.len() - trail_q(a))
}

proof fn lemma_lead_q(s: Seq<char>, k: int)
    requires
        0 <= k <= s.len(),
        forall|i: int| 0 <= i < k ==> is_quote(#[trigger] s[i]),
        k == s.len() || !is_quote(s[k]),
    ensures
        lead_q(s) == k,
    decreases k,
{
    if k > 0 {
        let t = s.drop_first();
        assert forall|i: int| 0 <= i < k - 1 implies is_quote(#[trigger] t[i]) by {
            assert(t[i] == s[i + 1]);
        }
        if k - 1 < t.len() {
            assert(t[k - 1] == s[k]);
        }
        lemma_lead_q(t, k - 1);
    }
}

proof fn lemma_trail_q(s: Seq<char>, k: int)
    requires
        0 <= k <= s.len(),
        forall|i: int| s.len() - k <= i < s.len() ==> is_quote(#[trigger] s[i]),
        k == s.len() || !is_quote(s[s.len() - k - 1]),
    ensures
        trail_q(s) == k,
    decreases k,
{
    if k > 0 {
        let t = s.drop_last();
        assert forall|i: int| t.len() - (k - 1) <= i < t.len() implies is_quote(#[trigger] t[i]) by {
            assert(t[i] == s[i]);
        }
        if k - 1 < t.len() {
            assert(t[t.len() - (k - 1) - 1] == s[s.len() - k - 1]);
        }
        lemma_trail_q(t, k - 1);
    }
}

fn trim_quotes_chars(v: &Vec<char>) -> (r: Vec<char>)
    ensures
        r@ == trim_quotes(v@),
{
    let mut a: usize = 0;
    while a < v.len() && (v[a] == '"' || v[a] == '\'')
        invariant
            a <= v.len(),
            forall|i: int| 0 <= i < a ==> is_quote(#[trigger] v@[i]),
        decreases v.len() - a,
    {
        a += 1;
    }
    proof {
        lemma_lead_q(v@, a as int);
    }
    let s = slice_of(v, a, v.len());
    let mut b: usize = 0;
    while b < s.len() && (s[s.len() - b - 1] == '"' || s[s.len() - b - 1] == '\'')
        invariant
            b <= s.len(),
            forall|i: int| s.len() - b <= i < s.len() ==> is_quote(#[trigger] s@[i]),
        decreases s.len() - b,
    {
        b += 1;
    }
    proof {
        lemma_trail_q(s@, b as int);
    }
    slice_of(&s, 0, s.len() - b)
}

// ------------------------------------------------------------------ flags
/// The flags every binding starts from: input device `*`, nothing else set.
pub open spec fn init_flags() -> FlagsView {
    FlagsView {
        release: false,
        locked: false,
        inhibited: false,
        no_repeat: false,
        to_code: false,
        border: false,
        contents: false,
        titlebar: false,
        reload: false,
        exact: false,
        input: "*"@,
        group: None,
    }
}

/// `--input-device=NAME`, quotes trimmed.
pub open spec fn input_device_spec(t: Seq<char>) -> Option<Seq<char>> {
    if starts_with(t, "--input-device="@) {
        Some(trim_quotes(t.skip(15)))
    } else {
        None
    }
}

/// One leading `--flag` for this verb: the flags after it and whether
/// `--exclude-titlebar` has been seen, or `None` for a token the verb does not
/// know — which is where the chord starts.
pub open spec fn flag_step(f: FlagsView, excl: bool, t: Seq<char>, verb: Verb) -> Option<
    (FlagsView, bool),
> {
    match verb {
        Verb::Sym | Verb::Code => key_flag_step(f, excl, t, verb == Verb::Sym),
        Verb::Switch => if t == "--locked"@ {
            Some((FlagsView { locked: true, ..f }, excl))
        } else if t == "--reload"@ {
            Some((FlagsView { reload: true, ..f }, excl))
        } else if t == "--no-warn"@ {
            Some((f, excl))
        } else {
            None
        },
        Verb::Gesture => if t == "--exact"@ {
            Some((FlagsView { exact: true, ..f }, excl))
        } else if t == "--no-warn"@ {
            Some((f, excl))
        } else {
            match input_device_spec(t) {
                Some(d) => Some((FlagsView { input: d, ..f }, excl)),
                None => None,
            }
        },
    }
}

pub open spec fn finish_flags(f: FlagsView, excl: bool) -> FlagsView {
    if excl {
        FlagsView { titlebar: false, ..f }
    } else {
        f
    }
}

/// Whether `--exclude-titlebar` is among the leading flags from token `i`
/// on.
pub open spec fn excl_from(toks: Seq<Seq<char>>, i: int, verb: Verb, f: FlagsView, excl: bool) -> bool
    decreases toks.len() - i,
{
    if i < 0 || i >= toks.len() {
        excl
    } else {
        match flag_step(f, excl, toks[i], verb) {
            Some((g, e)) => excl_from(toks, i + 1, verb, g, e),
            None => excl,
        }
    }
}

/// Leading flags from token `i` on: the flags, and the index of the first
/// token that is not one.
pub open spec fn flags_from(toks: Seq<Seq<char>>, i: int, verb: Verb, f: FlagsView, excl: bool) -> (
    FlagsView,
    int,
)
    decreases toks.len() - i,
{
    if i < 0 || i >= toks.len() {
        (finish_flags(f, excl), i)
    } else {
        match flag_step(f, excl, toks[i], verb) {
            Some((g, e)) => flags_from(toks, i + 1, verb, g, e),
            None => (finish_flags(f, excl), i),
        }
    }
}

proof fn lemma_flags_from(toks: Seq<Seq<char>>, i: int, verb: Verb, f: FlagsView, excl: bool)
    requires
        0 <= i <= toks.len(),
    ensures
        i <= flags_from(toks, i, verb, f, excl).1 <= toks.len(),
    decreases toks.len() - i,
{
    if i < toks.len() {
        if let Some((g, e)) = flag_step(f, excl, toks[i], verb) {
            lemma_flags_from(toks, i + 1, verb, g, e);
        }
    }
}

/// `--input-device=NAME`: records the device and reports the token as known.
fn input_device(token: &Vec<char>, flags: &mut Flags) -> (known: bool)
    ensures
        known == (input_device_spec(token@) is Some),
        known ==> final(flags)@ == (FlagsView { input: input_device_spec(token@)->0, ..old(flags)@ }),
        !known ==> final(flags)@ == old(flags)@,
{
    proof {
        reveal_strlit("--input-device=");
        assert("--input-device="@.len() == 15);
    }
    if starts_with_lit(token, "--input-device=") {
        let rest = slice_of(token, 15, token.len());
        let d = trim_quotes_chars(&rest);
        proof {
            assert(rest@ == token@.skip(15));
        }
        flags.input = string_of(&d);
        true
    } else {
        false
    }
}

/// One leading token: applies it when the verb knows it, and says whether it
/// did.
fn flag_token(t: &Vec<char>, verb: Verb, flags: &mut Flags, excl: &mut bool) -> (known: bool)
    ensures
        match flag_step(old(flags)@, *old(excl), t@, verb) {
            Some((g, e)) => known && final(flags)@ == g && *final(excl) == e,
            None => !known && final(flags)@ == old(flags)@ && *final(excl) == *old(excl),
        },
{
    match verb {
        Verb::Sym | Verb::Code => key_flag_token(t, verb == Verb::Sym, flags, excl),
        Verb::Switch => {
            if eq_lit(t, "--locked") {
                flags.locked = true;
                true
            } else if eq_lit(t, "--reload") {
                flags.reload = true;
                true
            } else {
                eq_lit(t, "--no-warn")
            }
        },
        Verb::Gesture => {
            if eq_lit(t, "--exact") {
                flags.exact = true;
                true
            } else if eq_lit(t, "--no-warn") {
                true
            } else {
                input_device(t, flags)
            }
        },
    }
}

/// The `bindsym` / `bindcode` flags.
pub open spec fn key_flag_step(f: FlagsView, excl: bool, t: Seq<char>, sym: bool) -> Option<
    (FlagsView, bool),
> {
    if t == "--release"@ {
        Some((FlagsView { release: true, ..f }, excl))
    } else if t == "--locked"@ {
        Some((FlagsView { locked: true, ..f }, excl))
    } else if t == "--inhibited"@ {
        Some((FlagsView { inhibited: true, ..f }, excl))
    } else if t == "--no-repeat"@ {
        Some((FlagsView { no_repeat: true, ..f }, excl))
    } else if t == "--no-warn"@ {
        Some((f, excl))
    } else if t == "--to-code"@ {
        Some((FlagsView { to_code: sym, ..f }, excl))
    } else if t == "--border"@ {
        Some((FlagsView { border: true, ..f }, excl))
    } else if t == "--whole-window"@ {
        Some((FlagsView { border: true, contents: true, titlebar: true, ..f }, excl))
    } else if t == "--exclude-titlebar"@ {
        Some((f, true))
    } else {
        match input_device_spec(t) {
            Some(d) => Some((FlagsView { input: d, ..f }, excl)),
            None => None,
        }
    }
}

#[verifier::rlimit(40)]
fn key_flag_token(t: &Vec<char>, sym: bool, flags: &mut Flags, excl: &mut bool) -> (known: bool)
    ensures
        match key_flag_step(old(flags)@, *old(excl), t@, sym) {
            Some((g, e)) => known && final(flags)@ == g && *final(excl) == e,
            None => !known && final(flags)@ == old(flags)@ && *final(excl) == *old(excl),
        },
{
    if eq_lit(t, "--release") {
        flags.release = true;
        return true;
    }
    if eq_lit(t, "--locked") {
        flags.locked = true;
        return true;
    }
    if eq_lit(t, "--inhibited") {
        flags.inhibited = true;
        return true;
    }
    if eq_lit(t, "--no-repeat") {
        flags.no_repeat = true;
        return true;
    }
    if eq_lit(t, "--no-warn") {
        return true;
    }
    key_flag_token_rest(t, sym, flags, excl)
}

fn key_flag_token_rest(t: &Vec<char>, sym: bool, flags: &mut Flags, excl: &mut bool) -> (known: bool)
    requires
        t@ != "--release"@,
        t@ != "--locked"@,
        t@ != "--inhibited"@,
        t@ != "--no-repeat"@,
        t@ != "--no-warn"@,
    ensures
        match key_flag_step(old(flags)@, *old(excl), t@, sym) {
            Some((g, e)) => known && final(flags)@ == g && *final(excl) == e,
            None => !known && final(flags)@ == old(flags)@ && *final(excl) == *old(excl),
        },
{
    if eq_lit(t, "--to-code") {
        flags.to_code = sym;
        return true;
    }
    if eq_lit(t, "--border") {
        flags.border = true;
        return true;
    }
    key_flag_token_window(t, sym, flags, excl)
}

fn key_flag_token_window(t: &Vec<char>, sym: bool, flags: &mut Flags, excl: &mut bool) -> (known: bool)
    requires
        t@ != "--release"@,
        t@ != "--locked"@,
        t@ != "--inhibited"@,
        t@ != "--no-repeat"@,
        t@ != "--no-warn"@,
        t@ != "--to-code"@,
        t@ != "--border"@,
    ensures
        match key_flag_step(old(flags)@, *old(excl), t@, sym) {
            Some((g, e)) => known && final(flags)@ == g && *final(excl) == e,
            None => !known && final(flags)@ == old(flags)@ && *final(excl) == *old(excl),
        },
{
    if eq_lit(t, "--whole-window") {
        flags.border = true;
        flags.contents = true;
        flags.titlebar = true;
        return true;
    }
    if eq_lit(t, "--exclude-titlebar") {
        *excl = true;
        return true;
    }
    input_device(t, flags)
}

/// Consume leading `--flags` from `tokens[from..]`.
///
/// The verbs take *different* flag sets, and getting this wrong is not a
/// cosmetic bug: sway stops at the first token it does not recognise and treats
/// it as the chord. Feed `bindswitch --reload lid:on …` through the `bindsym`
/// flag list and the trigger silently becomes `--reload`.
fn parse_flags(tokens: &Vec<Vec<char>>, from: usize, verb: Verb) -> (r: (Flags, usize, bool))
    requires
        from <= tokens.len(),
    ensures
        (r.0@, r.1 as int) == flags_from(seqs(tokens@), from as int, verb, init_flags(), false),
        r.2 == excl_from(seqs(tokens@), from as int, verb, init_flags(), false),
{
    let mut flags = Flags::default();
    flags.input = string_of(&chars_of("*"));
    let mut exclude_titlebar = false;
    let mut i = from;
    let mut done = false;
    let ghost toks = seqs(tokens@);
    while !done && i < tokens.len()
        invariant
            from <= i <= tokens.len(),
            toks == seqs(tokens@),
            done ==> i < tokens.len() && flag_step(flags@, exclude_titlebar, toks[i as int], verb)
                is None,
            flags_from(toks, i as int, verb, flags@, exclude_titlebar) == flags_from(
                toks,
                from as int,
                verb,
                init_flags(),
                false,
            ),
            excl_from(toks, i as int, verb, flags@, exclude_titlebar) == excl_from(
                toks,
                from as int,
                verb,
                init_flags(),
                false,
            ),
        decreases tokens.len() - i, if done { 0int } else { 1int },
    {
        proof {
            assert(toks[i as int] == tokens@[i as int]@);
        }
        let known = flag_token(&tokens[i], verb, &mut flags, &mut exclude_titlebar);
        if known {
            i += 1;
        } else {
            done = true;
        }
    }
    if exclude_titlebar {
        flags.titlebar = false;
    }
    (flags, i, exclude_titlebar)
}

/// A mouse binding gets `titlebar` implicitly unless `--exclude-titlebar` was
/// given — and `--exclude-titlebar` already cleared it, so only add it back
/// when the flag was absent and some region flag was set.
pub open spec fn fixup_spec(f: FlagsView, bucket: Bucket, excl: bool) -> FlagsView {
    if bucket == Bucket::Mouse && !excl && (f.border || f.contents) {
        FlagsView { titlebar: true, ..f }
    } else {
        f
    }
}

fn fixup_mouse_flags(mut flags: Flags, bucket: Bucket, excl: bool) -> (r: Flags)
    ensures
        r@ == fixup_spec(flags@, bucket, excl),
{
    if bucket == Bucket::Mouse && !excl && (flags.border || flags.contents) {
        flags.titlebar = true;
    }
    flags
}

// ------------------------------------------------------------------ chords
/// The chord from piece `i` on, split at `+`: modifier mask, keys, and layout
/// group so far. `None` when a piece is empty, a group is out of range, a
/// keycode is not a number, or no key remains.
pub open spec fn chord_from(
    parts: Seq<Seq<char>>,
    i: int,
    mods: u32,
    keys: Seq<KeyView>,
    group: Option<u8>,
    bindcode: bool,
) -> Option<(u32, Seq<KeyView>, Option<u8>)>
    decreases parts.len() - i,
{
    if i < 0 || i >= parts.len() {
        if keys.len() == 0 {
            None
        } else {
            Some((mods, keys, group))
        }
    } else {
        let p = parts[i];
        if p.len() == 0 {
            None
        } else {
            match mod_bit(ascii_lower(p)) {
                Some(b) => chord_from(parts, i + 1, mods | b, keys, group, bindcode),
                None => if p == "Mode_switch"@ {
                    chord_from(parts, i + 1, mods, keys, Some(1u8), bindcode)
                } else if starts_with(p, "Group"@) {
                    match parse_u32(p.skip(5)) {
                        Some(n) => if 1 <= n <= 4 {
                            chord_from(parts, i + 1, mods, keys, Some((n - 1) as u8), bindcode)
                        } else {
                            None
                        },
                        None => None,
                    }
                } else if bindcode {
                    match parse_u32(p) {
                        Some(c) => chord_from(
                            parts,
                            i + 1,
                            mods,
                            keys.push(KeyView::Code(c)),
                            group,
                            bindcode,
                        ),
                        None => None,
                    }
                } else {
                    chord_from(parts, i + 1, mods, keys.push(KeyView::Sym(p)), group, bindcode)
                },
            }
        }
    }
}

/// Split a chord into modifiers, keys and an optional layout group.
pub open spec fn chord_spec(combo: Seq<char>, bindcode: bool) -> Option<
    (u32, Seq<KeyView>, Option<u8>),
> {
    chord_from(split_on(combo, '+'), 0, 0, seq![], None, bindcode)
}

fn parse_chord(combo: &Vec<char>, bindcode: bool) -> (r: Option<(Mods, Vec<Key>, Option<u8>)>)
    ensures
        match r {
            Some((m, k, g)) => chord_spec(combo@, bindcode) == Some((m.0, keys_view(k@), g)),
            None => chord_spec(combo@, bindcode) is None,
        },
{
    let parts = split_char(combo, '+');
    let ghost ps = seqs(parts@);
    let mut mods: u32 = 0;
    let mut keys: Vec<Key> = Vec::new();
    let mut group: Option<u8> = None;
    let mut i: usize = 0;
    proof {
        reveal_strlit("Group");
        assert("Group"@.len() == 5);
        assert(keys_view(keys@) =~= Seq::<KeyView>::empty());
    }
    while i < parts.len()
        invariant
            i <= parts.len(),
            ps == seqs(parts@),
            "Group"@.len() == 5,
            chord_from(ps, i as int, mods, keys_view(keys@), group, bindcode) == chord_spec(
                combo@,
                bindcode,
            ),
        decreases parts.len() - i,
    {
        let part = &parts[i];
        proof {
            assert(ps[i as int] == part@);
        }
        if part.len() == 0 {
            return None;
        }
        match Mods::from_name(part) {
            Some(bit) => {
                mods = mods | bit;
            },
            None => {
                if eq_lit(part, "Mode_switch") {
                    group = Some(1);
                } else if starts_with_lit(part, "Group") {
                    let n = slice_of(part, 5, part.len());
                    proof {
                        assert(n@ == part@.skip(5));
                    }
                    match parse_u32_chars(&n) {
                        Some(v) => {
                            if !(1 <= v && v <= 4) {
                                return None;
                            }
                            group = Some((v - 1) as u8);
                        },
                        None => {
                            return None;
                        },
                    }
                } else if bindcode {
                    match parse_u32_chars(part) {
                        Some(c) => {
                            let ghost before = keys_view(keys@);
                            keys.push(Key::Code(c));
                            proof {
                                assert(keys_view(keys@) =~= before.push(KeyView::Code(c)));
                            }
                        },
                        None => {
                            return None;
                        },
                    }
                } else {
                    let ghost before = keys_view(keys@);
                    keys.push(Key::Sym(string_of(part)));
                    proof {
                        assert(keys_view(keys@) =~= before.push(KeyView::Sym(part@)));
                    }
                }
            },
        }
        i += 1;
    }
    if keys.len() == 0 {
        return None;
    }
    Some((Mods(mods), keys, group))
}

// ----------------------------------------------------------------- buckets
/// `buttonN` (X11) or a libinput `BTN_*` name.
pub open spec fn is_button_spec(k: KeyView) -> bool {
    match k {
        KeyView::Code(_) => false,
        KeyView::Sym(s) => starts_with(s, "BTN_"@) || (starts_with(s, "button"@) && s.len() > 6
            && forall|j: int| 6 <= j < s.len() ==> crate::text::is_digit(#[trigger] s[j])),
    }
}

fn is_button(key: &Key) -> (r: bool)
    ensures
        r == is_button_spec(key@),
{
    match key {
        Key::Code(_) => false,
        Key::Sym(s) => {
            let v = chars_of(s.as_str());
            if starts_with_lit(&v, "BTN_") {
                return true;
            }
            proof {
                reveal_strlit("button");
                assert("button"@.len() == 6);
            }
            if !starts_with_lit(&v, "button") || v.len() <= 6 {
                return false;
            }
            let mut j: usize = 6;
            while j < v.len()
                invariant
                    6 <= j <= v.len(),
                    v@ == s@,
                    key@ == KeyView::Sym(s@),
                    !starts_with(v@, "BTN_"@),
                    starts_with(v@, "button"@),
                    forall|k: int| 6 <= k < j ==> crate::text::is_digit(#[trigger] v@[k]),
                decreases v.len() - j,
            {
                if !('0' <= v[j] && v[j] <= '9') {
                    proof {
                        assert(!crate::text::is_digit(v@[j as int]));
                        assert(key@ == KeyView::Sym(v@));
                        assert(!(forall|jj: int| 6 <= jj < v@.len() ==> crate::text::is_digit(
                            #[trigger] v@[jj],
                        )));
                    }
                    return false;
                }
                j += 1;
            }
            true
        },
    }
}

/// Every keysym of the chord translates to exactly one keycode.
pub open spec fn all_resolve(keys: Seq<KeyView>, r: ResolverView) -> bool {
    forall|i: int|
        0 <= i < keys.len() ==> match #[trigger] keys[i] {
            KeyView::Sym(s) => (r.resolves)(s),
            KeyView::Code(_) => true,
        }
}

/// Which of sway's lists a binding lands in.
pub open spec fn bucket_spec(keys: Seq<KeyView>, f: FlagsView, bindcode: bool, r: ResolverView) -> Bucket {
    if f.border || f.contents || f.titlebar {
        Bucket::Mouse
    } else if keys.len() > 0 && is_button_spec(keys[0]) {
        Bucket::Mouse
    } else if bindcode {
        Bucket::Keycode
    } else if f.to_code && all_resolve(keys, r) {
        Bucket::Keycode
    } else {
        Bucket::Keysym
    }
}

/// Which of sway's lists this binding lands in. `--to-code` reaches the
/// keycode list only if *every* keysym translates to exactly one keycode; one
/// failure sends the whole binding back.
fn bucket_for<R: Resolver + ?Sized>(keys: &Vec<Key>, flags: &Flags, bindcode: bool, resolver: &R) -> (r: Bucket)
    ensures
        r == bucket_spec(keys_view(keys@), flags@, bindcode, resolver_view(resolver)),
{
    if flags.border || flags.contents || flags.titlebar {
        return Bucket::Mouse;
    }
    if keys.len() > 0 && is_button(&keys[0]) {
        return Bucket::Mouse;
    }
    if bindcode {
        return Bucket::Keycode;
    }
    if !flags.to_code {
        return Bucket::Keysym;
    }
    let mut i: usize = 0;
    while i < keys.len()
        invariant
            i <= keys.len(),
            !(flags.border || flags.contents || flags.titlebar),
            !(keys.len() > 0 && is_button_spec(keys_view(keys@)[0])),
            !bindcode,
            flags.to_code,
            forall|k: int|
                0 <= k < i ==> match #[trigger] keys_view(keys@)[k] {
                    KeyView::Sym(s) => (resolver_view(resolver).resolves)(s),
                    KeyView::Code(_) => true,
                },
        decreases keys.len() - i,
    {
        let ok = match &keys[i] {
            Key::Sym(s) => resolver.resolves_to_single_keycode(s.as_str()),
            Key::Code(_) => true,
        };
        if !ok {
            proof {
                assert(keys_view(keys@)[i as int] == keys@[i as int]@);
                assert(!match keys_view(keys@)[i as int] {
                    KeyView::Sym(s) => (resolver_view(resolver).resolves)(s),
                    KeyView::Code(_) => true,
                });
                assert(!all_resolve(keys_view(keys@), resolver_view(resolver)));
            }
            return Bucket::Keysym;
        }
        i += 1;
    }
    Bucket::Keycode
}

// ------------------------------------------------------------------- modes
/// The first token that is not a `--flag`.
pub open spec fn first_non_flag(toks: Seq<Seq<char>>) -> Option<Seq<char>>
    decreases toks.len(),
{
    if toks.len() == 0 {
        None
    } else if !starts_with(toks[0], "--"@) {
        Some(toks[0])
    } else {
        first_non_flag(toks.drop_first())
    }
}

/// The binding mode of a directive: the innermost enclosing `mode` block that
/// names one, quotes trimmed, else `default`.
pub open spec fn mode_spec(blocks: Seq<Seq<char>>) -> Seq<char>
    decreases blocks.len(),
{
    if blocks.len() == 0 {
        "default"@
    } else {
        let t = split_ws(blocks.last());
        if t.len() > 0 && t[0] == "mode"@ {
            match first_non_flag(t.drop_first()) {
                Some(n) => trim_quotes(n),
                None => mode_spec(blocks.drop_last()),
            }
        } else {
            mode_spec(blocks.drop_last())
        }
    }
}

fn mode_of(d: &Directive) -> (r: String)
    ensures
        r@ == mode_spec(d@.blocks),
{
    let blocks = crate::text::chars_of_strings(&d.blocks);
    let ghost bs = seqs(blocks@);
    let mut i = blocks.len();
    proof {
        assert(bs.take(i as int) == bs);
    }
    while i > 0
        invariant
            i <= blocks.len(),
            bs == seqs(blocks@),
            bs == d@.blocks,
            mode_spec(bs.take(i as int)) == mode_spec(d@.blocks),
        decreases i,
    {
        let t = split_whitespace(&blocks[i - 1]);
        let ghost pre = bs.take(i as int);
        proof {
            assert(pre.last() == blocks@[i - 1]@);
            assert(pre.drop_last() == bs.take(i - 1));
        }
        if t.len() > 0 && eq_lit(&t[0], "mode") {
            proof {
                assert(seqs(t@)[0] == t@[0]@);
            }
            let mut k: usize = 1;
            proof {
                assert(seqs(t@).drop_first() == seqs(t@).skip(1));
            }
            while k < t.len() && starts_with_lit(&t[k], "--")
                invariant
                    1 <= k <= t.len(),
                    first_non_flag(seqs(t@).drop_first()) == first_non_flag(seqs(t@).skip(k as int)),
                decreases t.len() - k,
            {
                proof {
                    let q = seqs(t@).skip(k as int);
                    assert(q[0] == t@[k as int]@);
                    assert(q.drop_first() == seqs(t@).skip(k + 1));
                }
                k += 1;
            }
            if k < t.len() {
                proof {
                    let q = seqs(t@).skip(k as int);
                    assert(q[0] == t@[k as int]@);
                }
                let name = trim_quotes_chars(&t[k]);
                return string_of(&name);
            }
            proof {
                assert(seqs(t@).skip(k as int).len() == 0);
            }
        } else {
            proof {
                if t.len() > 0 {
                    assert(seqs(t@)[0] == t@[0]@);
                }
            }
        }
        i -= 1;
    }
    string_of(&chars_of("default"))
}

// ------------------------------------------------------------------ parse
/// How a key is shown: a keycode by the name of the keysym it produces where
/// the resolver knows it, else by number; a keysym as written.
pub open spec fn shown_key(k: KeyView, r: ResolverView) -> Seq<char> {
    match k {
        KeyView::Code(c) => match (r.keycode_name)(c) {
            Some(n) => n,
            None => decimal(c as nat),
        },
        KeyView::Sym(s) => s,
    }
}

/// sway compares keys *after* translation: in the keycode list a keysym
/// counts as the keycode it resolves to.
pub open spec fn translate_key(k: KeyView, bucket: Bucket, r: ResolverView) -> KeyView {
    match k {
        KeyView::Sym(s) => if bucket == Bucket::Keycode {
            match (r.keycode_for)(s) {
                Some(c) => KeyView::Code(c),
                None => k,
            }
        } else {
            k
        },
        KeyView::Code(_) => k,
    }
}

/// How each key of a chord is shown.
pub open spec fn shown_keys(keys: Seq<KeyView>, r: ResolverView) -> Seq<Seq<char>> {
    Seq::new(keys.len(), |i: int| shown_key(keys[i], r))
}

/// Each key of a chord as the list it is filed in compares it.
pub open spec fn translate_keys(keys: Seq<KeyView>, bucket: Bucket, r: ResolverView) -> Seq<
    KeyView,
> {
    Seq::new(keys.len(), |i: int| translate_key(keys[i], bucket, r))
}

/// A switch or gesture binding: no chord structure, the token is the trigger.
pub open spec fn trigger_binding_spec(
    d: DirectiveView,
    verb: Verb,
    combo: Seq<char>,
    flags: FlagsView,
    command: Seq<char>,
) -> BindingView {
    BindingView {
        mode: mode_spec(d.blocks),
        kind: if verb == Verb::Switch {
            Kind::Switch
        } else {
            Kind::Gesture
        },
        bucket: if verb == Verb::Switch {
            Bucket::Switch
        } else {
            Bucket::Gesture
        },
        chord: combo,
        modifiers: seq![],
        keys: seq![KeyView::Sym(combo)],
        flags: flags,
        command: command,
        comment: d.comment,
        origin: origin_spec(d),
        shadowed_by: None,
        mods: 0,
        sorted_keys: seq![KeyView::Sym(combo)],
    }
}

/// A key or button binding.
pub open spec fn chord_binding_spec(
    d: DirectiveView,
    r: ResolverView,
    mods: u32,
    keys: Seq<KeyView>,
    group: Option<u8>,
    flags: FlagsView,
    command: Seq<char>,
    bindcode: bool,
    excl: bool,
) -> BindingView {
    let f1 = FlagsView { group: group, ..flags };
    let bucket = bucket_spec(keys, f1, bindcode, r);
    BindingView {
        mode: mode_spec(d.blocks),
        kind: Kind::Chord,
        bucket: bucket,
        chord: join(names_spec(mods) + shown_keys(keys, r), "+"@),
        modifiers: names_spec(mods),
        keys: keys,
        flags: fixup_spec(f1, bucket, excl),
        command: command,
        comment: d.comment,
        origin: origin_spec(d),
        shadowed_by: None,
        mods: mods,
        sorted_keys: sort_keys(translate_keys(keys, bucket, r)),
    }
}

/// One `bind*` / `unbind*` directive: the binding and whether it removes,
/// or `None` for a line that looked like a binding but is not one.
pub open spec fn parse_spec(d: DirectiveView, r: ResolverView) -> Option<
    (BindingView, bool),
> {
    let toks = split_ws(d.text);
    if toks.len() == 0 {
        None
    } else {
        match verb_spec(toks[0]) {
            None => None,
            Some((verb, unbind)) => {
                let (flags, k) = flags_from(toks, 1, verb, init_flags(), false);
                if !(1 <= k < toks.len()) {
                    None
                } else if unbind != (k + 1 == toks.len()) {
                    // `bind*` needs a command; `unbind*` must not have one.
                    None
                } else {
                    let combo = toks[k];
                    let command = join(toks.skip(k + 1), " "@);
                    if verb == Verb::Switch || verb == Verb::Gesture {
                        Some((trigger_binding_spec(d, verb, combo, flags, command), unbind))
                    } else {
                        match chord_spec(combo, verb == Verb::Code) {
                            None => None,
                            Some((mods, keys, group)) => Some(
                                (
                                    chord_binding_spec(
                                        d,
                                        r,
                                        mods,
                                        keys,
                                        group,
                                        flags,
                                        command,
                                        verb == Verb::Code,
                                        excl_from(toks, 1, verb, init_flags(), false),
                                    ),
                                    unbind,
                                ),
                            ),
                        }
                    }
                }
            },
        }
    }
}

fn trigger_binding(d: &Directive, verb: Verb, combo: &Vec<char>, flags: Flags, command: String) -> (b:
    Binding)
    requires
        verb == Verb::Switch || verb == Verb::Gesture,
    ensures
        b@ == trigger_binding_spec(d@, verb, combo@, flags@, command@),
{
    let (kind, bucket) = if verb == Verb::Switch {
        (Kind::Switch, Bucket::Switch)
    } else {
        (Kind::Gesture, Bucket::Gesture)
    };
    let mut keys: Vec<Key> = Vec::new();
    keys.push(Key::Sym(string_of(combo)));
    let mut sorted_keys: Vec<Key> = Vec::new();
    sorted_keys.push(Key::Sym(string_of(combo)));
    let b = Binding {
        mode: mode_of(d),
        kind,
        bucket,
        chord: string_of(combo),
        modifiers: Vec::new(),
        keys,
        flags,
        command,
        comment: copy_strings(&d.comment),
        origin: d.origin(),
        shadowed_by: None,
        mods: Mods(0),
        sorted_keys,
    };
    proof {
        assert(strs(b.modifiers@) =~= Seq::<Seq<char>>::empty());
        assert(keys_view(b.keys@) =~= seq![KeyView::Sym(combo@)]);
        assert(keys_view(b.sorted_keys@) =~= seq![KeyView::Sym(combo@)]);
    }
    b
}

fn chord_binding<R: Resolver + ?Sized>(
    d: &Directive,
    resolver: &R,
    mods: Mods,
    keys: Vec<Key>,
    group: Option<u8>,
    flags: Flags,
    command: String,
    bindcode: bool,
    excl: bool,
) -> (b: Binding)
    ensures
        b@ == chord_binding_spec(
            d@,
            resolver_view(resolver),
            mods.0,
            keys_view(keys@),
            group,
            flags@,
            command@,
            bindcode,
            excl,
        ),
{
    let ghost kv = keys_view(keys@);
    let ghost old_flags = flags@;
    let mut flags = flags;
    flags.group = group;
    let ghost f1v = flags@;
    proof {
        assert(f1v == FlagsView { group: group, ..old_flags });
    }
    let bucket = bucket_for(&keys, &flags, bindcode, resolver);
    proof {
        assert(bucket == bucket_spec(keys_view(keys@), flags@, bindcode, resolver_view(resolver)));
        assert(keys_view(keys@) == kv);
        assert(flags@ == f1v);
        assert(bucket == bucket_spec(kv, f1v, bindcode, resolver_view(resolver)));
    }
    let flags = fixup_mouse_flags(flags, bucket, excl);

    // `bindcode 51` means nothing to a human — show the keysym it produces on
    // the configured layout instead, where the resolver can say.
    let mut shown: Vec<Vec<char>> = Vec::new();
    let mut translated: Vec<Key> = Vec::new();
    let mut i: usize = 0;
    while i < keys.len()
        invariant
            i <= keys.len(),
            kv == keys_view(keys@),
            shown@.len() == i,
            translated@.len() == i,
            forall|k: int| 0 <= k < i ==> (#[trigger] shown@[k])@ == shown_key(kv[k], resolver_view(resolver)),
            forall|k: int|
                0 <= k < i ==> (#[trigger] translated@[k])@ == translate_key(
                    kv[k],
                    bucket,
                    resolver_view(resolver),
                ),
        decreases keys.len() - i,
    {
        proof {
            assert(kv[i as int] == keys@[i as int]@);
        }
        match &keys[i] {
            Key::Code(c) => {
                match resolver.keycode_name(*c) {
                    Some(n) => shown.push(chars_of(n.as_str())),
                    None => shown.push(decimal_chars(*c)),
                }
                translated.push(Key::Code(*c));
            },
            Key::Sym(s) => {
                shown.push(chars_of(s.as_str()));
                if bucket == Bucket::Keycode {
                    match resolver.keycode_for(s.as_str()) {
                        Some(c) => translated.push(Key::Code(c)),
                        None => translated.push(Key::Sym(crate::text::copy_string(s))),
                    }
                } else {
                    translated.push(Key::Sym(crate::text::copy_string(s)));
                }
            },
        }
        i += 1;
    }
    proof {
        assert(seqs(shown@) =~= shown_keys(kv, resolver_view(resolver)));
        assert(keys_view(translated@) =~= translate_keys(kv, bucket, resolver_view(resolver)));
    }

    let names = mods.names();
    let mut parts: Vec<Vec<char>> = Vec::new();
    let mut j: usize = 0;
    while j < names.len()
        invariant
            j <= names.len(),
            parts@.len() == j,
            forall|k: int| 0 <= k < j ==> (#[trigger] parts@[k])@ == names@[k]@,
        decreases names.len() - j,
    {
        parts.push(chars_of(names[j]));
        j += 1;
    }
    proof {
        assert(seqs(parts@) =~= strs_static(names@));
    }
    let modifiers = strings_of(&parts);
    let ghost before = seqs(parts@);
    let mut m: usize = 0;
    while m < shown.len()
        invariant
            m <= shown.len(),
            seqs(parts@) == before + seqs(shown@).take(m as int),
        decreases shown.len() - m,
    {
        let ghost p0 = seqs(parts@);
        parts.push(crate::text::slice_of(&shown[m], 0, shown[m].len()));
        proof {
            assert(shown@[m as int]@.take(shown@[m as int]@.len() as int) == shown@[m as int]@);
            assert(seqs(parts@) =~= p0.push(shown@[m as int]@));
            assert(seqs(shown@).take(m + 1) =~= seqs(shown@).take(m as int).push(
                shown@[m as int]@,
            ));
        }
        m += 1;
    }
    proof {
        assert(seqs(shown@).take(shown@.len() as int) == seqs(shown@));
    }
    let chord = string_of(&join_chars(&parts, &chars_of("+")));
    let sorted_keys = sort_key_vec(translated);
    let b = Binding {
        mode: mode_of(d),
        kind: Kind::Chord,
        bucket,
        chord,
        modifiers,
        keys,
        flags,
        command,
        comment: copy_strings(&d.comment),
        origin: d.origin(),
        shadowed_by: None,
        mods,
        sorted_keys,
    };
    proof {
        let rv = resolver_view(resolver);
        let f1 = FlagsView { group: group, ..old_flags };
        assert(b.bucket == bucket_spec(kv, f1, bindcode, rv));
        assert(b.flags@ == fixup_spec(f1, b.bucket, excl));
        assert(strs(b.modifiers@) == names_spec(mods.0));
        assert(b.chord@ == join(names_spec(mods.0) + shown_keys(kv, rv), "+"@));
        assert(keys_view(b.sorted_keys@) == sort_keys(translate_keys(kv, b.bucket, rv)));
    }
    b
}

/// `tokens[from..]`.
fn tail_of(tokens: &Vec<Vec<char>>, from: usize) -> (r: Vec<Vec<char>>)
    requires
        from <= tokens.len(),
    ensures
        seqs(r@) == seqs(tokens@).skip(from as int),
{
    let mut r: Vec<Vec<char>> = Vec::new();
    let mut i = from;
    while i < tokens.len()
        invariant
            from <= i <= tokens.len(),
            r@.len() == i - from,
            forall|k: int| 0 <= k < i - from ==> (#[trigger] r@[k])@ == tokens@[from + k]@,
        decreases tokens.len() - i,
    {
        r.push(crate::text::slice_of(&tokens[i], 0, tokens[i].len()));
        proof {
            assert(tokens@[i as int]@.take(tokens@[i as int]@.len() as int) == tokens@[i as int]@);
        }
        i += 1;
    }
    proof {
        assert(seqs(r@) =~= seqs(tokens@).skip(from as int));
    }
    r
}

/// Parse one `bind*` / `unbind*` directive. `None` means "looked like a
/// binding but wasn't one we understand" — the caller reports it.
fn parse<R: Resolver + ?Sized>(d: &Directive, resolver: &R) -> (r: Option<(Binding, bool)>)
    ensures
        match r {
            Some((b, u)) => parse_spec(d@, resolver_view(resolver)) == Some((b@, u)),
            None => parse_spec(d@, resolver_view(resolver)) is None,
        },
{
    let text = chars_of(d.text.as_str());
    let toks = split_whitespace(&text);
    let ghost ts = seqs(toks@);
    if toks.len() == 0 {
        return None;
    }
    proof {
        assert(ts[0] == toks@[0]@);
    }
    let (verb, unbind) = match verb_of(&toks[0]) {
        Some(v) => v,
        None => {
            return None;
        },
    };
    let (flags, k, excl) = parse_flags(&toks, 1, verb);
    proof {
        lemma_flags_from(ts, 1, verb, init_flags(), false);
    }
    if k >= toks.len() {
        return None;
    }
    if unbind != (k + 1 == toks.len()) {
        return None;
    }
    proof {
        assert(ts[k as int] == toks@[k as int]@);
    }
    let rest = tail_of(&toks, k + 1);
    let command = string_of(&join_chars(&rest, &chars_of(" ")));
    let combo = &toks[k];
    if verb == Verb::Switch || verb == Verb::Gesture {
        return Some((trigger_binding(d, verb, combo, flags, command), unbind));
    }
    let bindcode = verb == Verb::Code;
    match parse_chord(combo, bindcode) {
        None => None,
        Some((mods, keys, group)) => Some(
            (chord_binding(d, resolver, mods, keys, group, flags, command, bindcode, excl), unbind),
        ),
    }
}

// ------------------------------------------------------------------ apply
/// Index of the first binding with the same collision key.
pub open spec fn first_collision(list: Seq<BindingView>, b: BindingView) -> Option<nat>
    decreases list.len(),
{
    if list.len() == 0 {
        None
    } else if same_key(list[0], b) {
        Some(0)
    } else {
        match first_collision(list.drop_first(), b) {
            Some(i) => Some(i + 1),
            None => None,
        }
    }
}

/// `binding_upsert` replaces in place, so config order survives;
/// `binding_remove` only ever reaches its own list.
pub open spec fn apply_spec(list: Seq<BindingView>, b: BindingView, unbind: bool) -> Seq<
    BindingView,
> {
    match first_collision(list, b) {
        Some(i) => if i < list.len() {
            if unbind {
                list.remove(i as int)
            } else {
                list.update(i as int, b)
            }
        } else {
            list
        },
        None => if unbind {
            list
        } else {
            list.push(b)
        },
    }
}

proof fn lemma_conflict_bits(a: FlagsView, b: FlagsView)
    requires
        conflict_bits(a) == conflict_bits(b),
    ensures
        a.release == b.release,
        a.locked == b.locked,
        a.inhibited == b.inhibited,
        a.border == b.border,
        a.contents == b.contents,
        a.titlebar == b.titlebar,
{
}

/// A binding only ever replaces or removes one on the very same key: same
/// mode, input device, list, layout group, modifier mask, keys (as its list
/// compares them), and press/release, lock, inhibit and mouse-region passes.
/// Every binding that differs from it in any of these stays in the list.
pub proof fn lemma_apply_own_key(list: Seq<BindingView>, b: BindingView, unbind: bool)
    ensures
        first_collision(list, b) matches Some(i) ==> {
            let c = list[i as int];
            &&& i < list.len()
            &&& c.mode == b.mode
            &&& c.flags.input == b.flags.input
            &&& c.bucket == b.bucket
            &&& c.flags.group == b.flags.group
            &&& c.mods == b.mods
            &&& c.sorted_keys == b.sorted_keys
            &&& c.flags.release == b.flags.release
            &&& c.flags.locked == b.flags.locked
            &&& c.flags.inhibited == b.flags.inhibited
            &&& c.flags.border == b.flags.border
            &&& c.flags.contents == b.flags.contents
            &&& c.flags.titlebar == b.flags.titlebar
        },
        forall|k: int|
            0 <= k < list.len() && ({
                let c = #[trigger] list[k];
                ||| c.mode != b.mode
                ||| c.flags.input != b.flags.input
                ||| c.bucket != b.bucket
                ||| c.flags.group != b.flags.group
                ||| c.mods != b.mods
                ||| c.sorted_keys != b.sorted_keys
            }) ==> apply_spec(list, b, unbind).contains(list[k]),
{
    lemma_first_collision_props(list, b);
    if let Some(i) = first_collision(list, b) {
        lemma_conflict_bits(list[i as int].flags, b.flags);
    }
    assert forall|k: int|
        0 <= k < list.len() && ({
            let c = #[trigger] list[k];
            ||| c.mode != b.mode
            ||| c.flags.input != b.flags.input
            ||| c.bucket != b.bucket
            ||| c.flags.group != b.flags.group
            ||| c.mods != b.mods
            ||| c.sorted_keys != b.sorted_keys
        }) implies apply_spec(list, b, unbind).contains(list[k]) by {
        let out = apply_spec(list, b, unbind);
        match first_collision(list, b) {
            Some(i) => {
                assert(k != i);
                if unbind {
                    if k < i {
                        assert(out[k] == list[k]);
                    } else {
                        assert(out[k - 1] == list[k]);
                    }
                } else {
                    assert(out[k] == list[k]);
                }
            },
            None => {
                assert(out[k] == list[k]);
            },
        }
    }
}

proof fn lemma_first_collision(list: Seq<BindingView>, b: BindingView, k: int)
    requires
        0 <= k <= list.len(),
        forall|j: int| 0 <= j < k ==> !same_key(#[trigger] list[j], b),
    ensures
        k < list.len() && same_key(list[k], b) ==> first_collision(list, b) == Some(k as nat),
        k == list.len() ==> first_collision(list, b) is None,
    decreases k,
{
    if k > 0 {
        let t = list.drop_first();
        assert forall|j: int| 0 <= j < k - 1 implies !same_key(#[trigger] t[j], b) by {
            assert(t[j] == list[j + 1]);
        }
        if k < list.len() {
            assert(t[k - 1] == list[k]);
        }
        lemma_first_collision(t, b, k - 1);
    }
}

proof fn lemma_first_collision_props(list: Seq<BindingView>, b: BindingView)
    ensures
        first_collision(list, b) matches Some(i) ==> i < list.len() && same_key(list[i as int], b)
            && forall|j: int| 0 <= j < i ==> !same_key(#[trigger] list[j], b),
        first_collision(list, b) is None ==> forall|j: int|
            0 <= j < list.len() ==> !same_key(#[trigger] list[j], b),
    decreases list.len(),
{
    if list.len() > 0 && !same_key(list[0], b) {
        let t = list.drop_first();
        lemma_first_collision_props(t, b);
        assert forall|j: int| 0 < j < list.len() implies list[j] == t[j - 1] by {}
    }
}

/// Insert, replace or remove, honouring the per-list semantics.
fn apply(list: &mut Vec<Binding>, binding: Binding, unbind: bool)
    ensures
        bindings_view(final(list)@) == apply_spec(bindings_view(old(list)@), binding@, unbind),
{
    let ghost l0 = bindings_view(list@);
    let ghost bv = binding@;
    let mut i: usize = 0;
    while i < list.len() && !list[i].collides_with(&binding)
        invariant
            i <= list.len(),
            l0 == bindings_view(list@),
            list@ == old(list)@,
            bv == binding@,
            forall|j: int| 0 <= j < i ==> !same_key(#[trigger] l0[j], bv),
        decreases list.len() - i,
    {
        proof {
            assert(l0[i as int] == list@[i as int]@);
        }
        i += 1;
    }
    proof {
        if i < list.len() {
            assert(l0[i as int] == list@[i as int]@);
        }
        lemma_first_collision(l0, bv, i as int);
    }
    if i < list.len() {
        if unbind {
            list.remove(i);
            proof {
                assert(bindings_view(list@) =~= l0.remove(i as int));
            }
        } else {
            list.set(i, binding);
            proof {
                assert(bindings_view(list@) =~= l0.update(i as int, bv));
            }
        }
    } else if !unbind {
        list.push(binding);
        proof {
            assert(bindings_view(list@) =~= l0.push(bv));
        }
    }
}

// ------------------------------------------------------------------ build
/// The first token of a block header is `bar`.
pub open spec fn is_bar_block(header: Seq<char>) -> bool {
    split_ws(header).len() > 0 && split_ws(header)[0] == "bar"@
}

/// One directive's effect on the binding set and the report of unparsed
/// lines.
pub open spec fn build_step(
    st: (Seq<BindingView>, Seq<Seq<char>>),
    d: DirectiveView,
    r: ResolverView,
) -> (Seq<BindingView>, Seq<Seq<char>>) {
    let toks = split_ws(d.text);
    if toks.len() == 0 {
        st
    } else if !starts_with(toks[0], "bind"@) && !starts_with(toks[0], "unbind"@) {
        st
    } else if exists|i: int| 0 <= i < d.blocks.len() && is_bar_block(#[trigger] d.blocks[i]) {
        // `bar { bindsym button1 … }` binds a bar button, not a key.
        st
    } else {
        match parse_spec(d, r) {
            Some((b, u)) => (apply_spec(st.0, b, u), st.1),
            None => (st.0, st.1.push("UNPARSED "@ + origin_spec(d) + ": "@ + d.text)),
        }
    }
}

/// The binding set after the first `n` directives.
pub open spec fn build_upto(dirs: Seq<DirectiveView>, n: int, r: ResolverView) -> (
    Seq<BindingView>,
    Seq<Seq<char>>,
)
    decreases n,
{
    if n <= 0 {
        (seq![], seq![])
    } else {
        build_step(build_upto(dirs, n - 1, r), dirs[n - 1], r)
    }
}

/// The binding set of a whole config.
pub open spec fn build_spec(dirs: Seq<DirectiveView>, r: ResolverView) -> (
    Seq<BindingView>,
    Seq<Seq<char>>,
) {
    build_upto(dirs, dirs.len() as int, r)
}

fn in_bar_block(blocks: &Vec<String>) -> (r: bool)
    ensures
        r == exists|i: int| 0 <= i < strs(blocks@).len() && is_bar_block(#[trigger] strs(blocks@)[i]),
{
    let mut i: usize = 0;
    while i < blocks.len()
        invariant
            i <= blocks.len(),
            forall|k: int| 0 <= k < i ==> !is_bar_block(#[trigger] strs(blocks@)[k]),
        decreases blocks.len() - i,
    {
        let t = split_whitespace(&chars_of(blocks[i].as_str()));
        proof {
            assert(strs(blocks@)[i as int] == blocks@[i as int]@);
            if t.len() > 0 {
                assert(seqs(t@)[0] == t@[0]@);
            }
        }
        if t.len() > 0 && eq_lit(&t[0], "bar") {
            return true;
        }
        i += 1;
    }
    false
}

/// Build the binding set from config directives, applying collisions and
/// `unbind*` the way sway does.
pub fn build<R: Resolver + ?Sized>(directives: &[Directive], resolver: &R) -> (b: Bindings)
    ensures
        (bindings_view(b.list@), strs(b.unparsed@)) == build_spec(
            directives_view(directives@),
            resolver_view(resolver),
        ),
{
    let ghost dv = directives_view(directives@);
    let ghost rv = resolver_view(resolver);
    let mut list: Vec<Binding> = Vec::new();
    let mut unparsed: Vec<String> = Vec::new();
    let mut n: usize = 0;
    proof {
        assert(bindings_view(list@) =~= Seq::<BindingView>::empty());
        assert(strs(unparsed@) =~= Seq::<Seq<char>>::empty());
        assert(build_upto(dv, 0, rv) == (
            Seq::<BindingView>::empty(),
            Seq::<Seq<char>>::empty(),
        ));
    }
    while n < directives.len()
        invariant
            n <= directives.len(),
            dv == directives_view(directives@),
            rv == resolver_view(resolver),
            (bindings_view(list@), strs(unparsed@)) == build_upto(dv, n as int, rv),
        decreases directives.len() - n,
    {
        let d = &directives[n];
        proof {
            assert(dv[n as int] == d@);
        }
        let ghost st = (bindings_view(list@), strs(unparsed@));
        let text = chars_of(d.text.as_str());
        let toks = split_whitespace(&text);
        n += 1;
        proof {
            assert(build_upto(dv, n as int, rv) == build_step(st, d@, rv));
        }
        if toks.len() == 0 {
            proof {
                assert(build_step(st, d@, rv) == st);
            }
            continue;
        }
        proof {
            assert(seqs(toks@)[0] == toks@[0]@);
        }
        if !starts_with_lit(&toks[0], "bind") && !starts_with_lit(&toks[0], "unbind") {
            proof {
                assert(build_step(st, d@, rv) == st);
            }
            continue;
        }
        if in_bar_block(&d.blocks) {
            proof {
                assert(build_step(st, d@, rv) == st);
            }
            continue;
        }
        match parse(d, resolver) {
            Some((binding, unbind)) => apply(&mut list, binding, unbind),
            None => {
                let mut m = chars_of("UNPARSED ");
                let o = chars_of(d.origin().as_str());
                extend_chars(&mut m, &o);
                let sep = chars_of(": ");
                extend_chars(&mut m, &sep);
                extend_chars(&mut m, &text);
                let ghost mv = m@;
                unparsed.push(string_of(&m));
                proof {
                    assert(strs(unparsed@) =~= st.1.push(mv));
                }
            },
        }
    }
    Bindings { list, unparsed }
}

// ------------------------------------------------------------------- laws
/// No two bindings share sway's collision key.
pub open spec fn keys_distinct(list: Seq<BindingView>) -> bool {
    forall|i: int, j: int|
        0 <= i < j < list.len() ==> !same_key(#[trigger] list[i], #[trigger] list[j])
}

/// Upserting or removing one binding keeps collision keys distinct.
pub proof fn lemma_apply_keeps_keys_distinct(list: Seq<BindingView>, b: BindingView, unbind: bool)
    requires
        keys_distinct(list),
    ensures
        keys_distinct(apply_spec(list, b, unbind)),
{
    lemma_first_collision_props(list, b);
    let r = apply_spec(list, b, unbind);
    match first_collision(list, b) {
        Some(k) => {
            if unbind {
                assert forall|i: int, j: int| 0 <= i < j < r.len() implies !same_key(
                    #[trigger] r[i],
                    #[trigger] r[j],
                ) by {
                    let ii = if i < k { i } else { i + 1 };
                    let jj = if j < k { j } else { j + 1 };
                    assert(r[i] == list[ii]);
                    assert(r[j] == list[jj]);
                }
            } else {
                assert forall|i: int, j: int| 0 <= i < j < r.len() implies !same_key(
                    #[trigger] r[i],
                    #[trigger] r[j],
                ) by {
                    if i != k && j != k {
                        assert(r[i] == list[i]);
                        assert(r[j] == list[j]);
                    } else if i == k {
                        assert(r[j] == list[j]);
                        assert(!same_key(list[k as int], list[j]));
                    } else {
                        assert(r[i] == list[i]);
                        assert(!same_key(list[i], list[k as int]));
                    }
                }
            }
        },
        None => {
            if !unbind {
                assert forall|i: int, j: int| 0 <= i < j < r.len() implies !same_key(
                    #[trigger] r[i],
                    #[trigger] r[j],
                ) by {
                    assert(r[i] == list[i]);
                    if j < list.len() {
                        assert(r[j] == list[j]);
                    }
                }
            }
        },
    }
}

/// However many `bind*` and `unbind*` lines a config holds, the resulting set
/// never holds two bindings that sway would file under the same key: a later
/// binding replaces an earlier one in its own list, and only there.
pub proof fn lemma_build_keys_distinct(dirs: Seq<DirectiveView>, r: ResolverView)
    ensures
        keys_distinct(build_spec(dirs, r).0),
{
    lemma_build_upto_distinct(dirs, dirs.len() as int, r);
}

proof fn lemma_build_upto_distinct(dirs: Seq<DirectiveView>, n: int, r: ResolverView)
    ensures
        keys_distinct(build_upto(dirs, n, r).0),
    decreases n,
{
    if n > 0 {
        lemma_build_upto_distinct(dirs, n - 1, r);
        let st = build_upto(dirs, n - 1, r);
        let d = dirs[n - 1];
        if let Some((b, u)) = parse_spec(d, r) {
            lemma_apply_keeps_keys_distinct(st.0, b, u);
        }
    }
}


// ------------------------------------------------------------------ modes
/// The bindings of one mode, in order.
pub open spec fn in_mode(bs: Seq<BindingView>, mode: Seq<char>) -> Seq<BindingView> {
    bs.filter(|b: BindingView| b.mode == mode)
}

/// Where the binding at `i` stands once only the bindings of `mode` are
/// kept, if it is kept.
pub open spec fn kept_at(bs: Seq<BindingView>, mode: Seq<char>, i: int) -> Option<usize> {
    if 0 <= i < bs.len() && bs[i].mode == mode {
        Some(in_mode(bs.take(i), mode).len() as usize)
    } else {
        None
    }
}

/// A kept binding, its winner (if any) named by where it now stands; a
/// winner that was not kept is forgotten.
pub open spec fn moved_ref(b: BindingView, bs: Seq<BindingView>, mode: Seq<char>) -> BindingView {
    BindingView {
        shadowed_by: match b.shadowed_by {
            Some(w) => kept_at(bs, mode, w as int),
            None => None,
        },
        ..b
    }
}

/// The bindings of `mode`, in order, their winners renumbered.
pub open spec fn retain_spec(bs: Seq<BindingView>, mode: Seq<char>) -> Seq<BindingView> {
    in_mode(bs, mode).map_values(|b: BindingView| moved_ref(b, bs, mode))
}

/// Keep only the bindings of `mode`, in their order. A binding that never
/// fires keeps pointing at the binding that wins, wherever that now stands.
pub fn retain_mode(list: &mut Vec<Binding>, mode: &str)
    ensures
        bindings_view(final(list)@) == retain_spec(bindings_view(old(list)@), mode@),
{
    let m = chars_of(mode);
    let ghost bs = bindings_view(old(list)@);
    let total: usize = list.len();
    let mut k: usize = 0;
    let mut i: usize = 0;
    let mut pos: Vec<Option<usize>> = Vec::new();
    proof {
        assert(bs.take(0) =~= Seq::<BindingView>::empty());
        assert(bs.skip(0) =~= bs);
        reveal(Seq::filter);
        assert(in_mode(Seq::<BindingView>::empty(), m@) =~= Seq::<BindingView>::empty());
    }
    while i < list.len()
        invariant
            m@ == mode@,
            bs.len() == total,
            0 <= k <= bs.len(),
            bindings_view(list@) == in_mode(bs.take(k as int), m@) + bs.skip(k as int),
            i == in_mode(bs.take(k as int), m@).len(),
            pos@.len() == k,
            forall|t: int| 0 <= t < k ==> #[trigger] pos@[t] == kept_at(bs, m@, t),
        decreases list.len() - i,
    {
        let ghost a = in_mode(bs.take(k as int), m@);
        let ghost before = list@;
        proof {
            assert(bindings_view(before)[i as int] == bs[k as int]);
            assert(bs.take(k + 1).drop_last() =~= bs.take(k as int));
            assert(bs.take(k + 1).last() == bs[k as int]);
        }
        let keep = eq_chars(&chars_of(list[i].mode.as_str()), &m);
        proof {
            assert(list@[i as int]@ == bindings_view(before)[i as int]);
            assert(keep == (bs[k as int].mode == m@));
            let p = |b: BindingView| b.mode == m@;
            reveal(Seq::filter);
            assert(in_mode(bs.take(k + 1), m@) == (if p(bs[k as int]) {
                bs.take(k as int).filter(p).push(bs[k as int])
            } else {
                bs.take(k as int).filter(p)
            }));
            assert(in_mode(bs.take(k + 1), m@) == bs.take(k + 1).filter(p));
            assert(in_mode(bs.take(k as int), m@) == bs.take(k as int).filter(p));
        }
        if keep {
            pos.push(Some(i));
            i += 1;
            proof {
                assert(in_mode(bs.take(k + 1), m@) =~= a.push(bs[k as int]));
                assert(bindings_view(list@) =~= a.push(bs[k as int]) + bs.skip(k + 1));
            }
        } else {
            pos.push(None);
            list.remove(i);
            proof {
                assert(in_mode(bs.take(k + 1), m@) =~= a);
                assert(bindings_view(list@) =~= bindings_view(before).remove(i as int));
                assert(bindings_view(list@) =~= a + bs.skip(k + 1));
            }
        }
        k = k + 1;
    }
    proof {
        assert(bs.skip(k as int).len() == 0);
        assert(bs.take(k as int) =~= bs);
        assert(bindings_view(list@) =~= in_mode(bs, m@));
    }
    // Renumber the winners.
    let ghost kept = bindings_view(list@);
    let n = list.len();
    let mut i: usize = 0;
    while i < n
        invariant
            n == list.len() == kept.len(),
            pos@.len() == bs.len(),
            forall|t: int| 0 <= t < bs.len() ==> #[trigger] pos@[t] == kept_at(bs, m@, t),
            forall|t: int| 0 <= t < i ==> #[trigger] list@[t]@ == moved_ref(kept[t], bs, m@),
            forall|t: int| i <= t < n ==> #[trigger] list@[t]@ == kept[t],
        decreases n - i,
    {
        let ghost before = list@;
        let w = match list[i].shadowed_by {
            Some(x) => if x < pos.len() {
                pos[x]
            } else {
                None
            },
            None => None,
        };
        let mut b = list.remove(i);
        proof {
            assert(b@ == kept[i as int]);
        }
        b.shadowed_by = w;
        proof {
            assert(b@ == moved_ref(kept[i as int], bs, m@));
        }
        list.insert(i, b);
        proof {
            assert forall|t: int| 0 <= t < n && t != i implies #[trigger] list@[t] == before[t] by {
                assert(list@ =~= before.update(i as int, list@[i as int]));
            }
        }
        i += 1;
    }
    proof {
        assert(bindings_view(list@) =~= retain_spec(bs, m@));
    }
}

/// Keeping one mode keeps every winner of a binding kept: where a binding
/// of the mode names a winner of the same mode, the renumbered index names
/// that same winner in the kept list.
pub proof fn lemma_kept_winner(bs: Seq<BindingView>, mode: Seq<char>, w: int)
    requires
        bs.len() <= usize::MAX,
        0 <= w < bs.len(),
        bs[w].mode == mode,
    ensures
        kept_at(bs, mode, w) matches Some(j) && j < in_mode(bs, mode).len() && in_mode(bs, mode)[j as int]
            == bs[w],
{
    lemma_in_mode_prefix(bs, mode, w + 1);
    let p = |b: BindingView| b.mode == mode;
    reveal(Seq::filter);
    assert(bs.take(w + 1).drop_last() =~= bs.take(w));
    assert(bs.take(w + 1).last() == bs[w]);
    assert(in_mode(bs.take(w + 1), mode) == bs.take(w + 1).filter(p));
    assert(in_mode(bs.take(w), mode) == bs.take(w).filter(p));
    assert(in_mode(bs.take(w + 1), mode) == in_mode(bs.take(w), mode).push(bs[w]));
    lemma_in_mode_len(bs.take(w), mode);
    let j = in_mode(bs.take(w), mode).len();
    assert(in_mode(bs.take(w + 1), mode)[j as int] == bs[w]);
}

proof fn lemma_in_mode_len(bs: Seq<BindingView>, mode: Seq<char>)
    ensures
        in_mode(bs, mode).len() <= bs.len(),
{
    bs.filter_lemma(|b: BindingView| b.mode == mode);
}

proof fn lemma_in_mode_prefix(bs: Seq<BindingView>, mode: Seq<char>, n: int)
    requires
        0 <= n <= bs.len(),
    ensures
        in_mode(bs.take(n), mode).len() <= in_mode(bs, mode).len(),
        forall|t: int| 0 <= t < in_mode(bs.take(n), mode).len() ==> #[trigger] in_mode(bs.take(n), mode)[t]
            == in_mode(bs, mode)[t],
    decreases bs.len() - n,
{
    if n < bs.len() {
        lemma_in_mode_prefix(bs, mode, n + 1);
        let p = |b: BindingView| b.mode == mode;
        reveal(Seq::filter);
        assert(bs.take(n + 1).drop_last() =~= bs.take(n));
        assert(bs.take(n + 1).last() == bs[n]);
        assert(in_mode(bs.take(n + 1), mode) == bs.take(n + 1).filter(p));
        assert(in_mode(bs.take(n), mode) == bs.take(n).filter(p));
        let a = in_mode(bs.take(n), mode);
        let c = in_mode(bs.take(n + 1), mode);
        assert(c == (if p(bs[n]) {
            a.push(bs[n])
        } else {
            a
        }));
        assert forall|t: int| 0 <= t < a.len() implies #[trigger] a[t] == in_mode(bs, mode)[t] by {
            assert(a[t] == c[t]);
        }
    } else {
        assert(bs.take(n) =~= bs);
    }
}

// ------------------------------------------------------------ parse laws
/// A token the verb reads as a leading flag.
pub open spec fn is_flag(t: Seq<char>, verb: Verb) -> bool {
    match verb {
        Verb::Sym | Verb::Code => {
            ||| t == "--release"@
            ||| t == "--locked"@
            ||| t == "--inhibited"@
            ||| t == "--no-repeat"@
            ||| t == "--no-warn"@
            ||| t == "--to-code"@
            ||| t == "--border"@
            ||| t == "--whole-window"@
            ||| t == "--exclude-titlebar"@
            ||| starts_with(t, "--input-device="@)
        },
        Verb::Switch => t == "--locked"@ || t == "--reload"@ || t == "--no-warn"@,
        Verb::Gesture => t == "--exact"@ || t == "--no-warn"@ || starts_with(t, "--input-device="@),
    }
}

#[verifier::rlimit(50)]
proof fn lemma_flag_step_some(f: FlagsView, excl: bool, t: Seq<char>, verb: Verb)
    ensures
        (flag_step(f, excl, t, verb) is Some) == is_flag(t, verb),
        flag_step(f, excl, t, verb) matches Some((g, e)) ==> (g.to_code ==> f.to_code || verb == Verb::Sym),
{
    match verb {
        Verb::Sym | Verb::Code => {
            let sym = verb == Verb::Sym;
            assert((key_flag_step(f, excl, t, sym) is Some) == is_flag(t, verb));
        },
        Verb::Switch => {},
        Verb::Gesture => {},
    }
}

proof fn lemma_flags_prefix_from(toks: Seq<Seq<char>>, i: int, verb: Verb, f: FlagsView, excl: bool)
    requires
        0 <= i <= toks.len(),
        f.to_code ==> verb == Verb::Sym,
    ensures
        forall|m: int|
            i <= m < flags_from(toks, i, verb, f, excl).1 ==> is_flag(#[trigger] toks[m], verb),
        flags_from(toks, i, verb, f, excl).1 < toks.len() ==> !is_flag(
            toks[flags_from(toks, i, verb, f, excl).1],
            verb,
        ),
        flags_from(toks, i, verb, f, excl).0.to_code ==> verb == Verb::Sym,
    decreases toks.len() - i,
{
    lemma_flags_from(toks, i, verb, f, excl);
    if i < toks.len() {
        lemma_flag_step_some(f, excl, toks[i], verb);
        match flag_step(f, excl, toks[i], verb) {
            Some((g, e)) => {
                lemma_flags_prefix_from(toks, i + 1, verb, g, e);
            },
            None => {},
        }
    }
}

/// The leading flags end where the first token the verb does not know as a
/// flag starts; `--to-code` is only ever kept by `bindsym`; the input device
/// is the one the last `--input-device=` among the flags names, unquoted,
/// else `*`.
pub proof fn lemma_flags_prefix(toks: Seq<Seq<char>>, verb: Verb)
    requires
        toks.len() >= 1,
    ensures
        ({
            let (f, k) = flags_from(toks, 1, verb, init_flags(), false);
            &&& 1 <= k <= toks.len()
            &&& forall|m: int| 1 <= m < k ==> is_flag(#[trigger] toks[m], verb)
            &&& k < toks.len() ==> !is_flag(toks[k], verb)
            &&& f.to_code ==> verb == Verb::Sym
            &&& f.input == match last_input(toks, 1, k) {
                Some(d) => d,
                None => "*"@,
            }
        }),
{
    lemma_flags_from(toks, 1, verb, init_flags(), false);
    lemma_flags_prefix_from(toks, 1, verb, init_flags(), false);
    lemma_flags_input_from(toks, 1, verb, init_flags(), false);
}

/// The device named by the last `--input-device=` among `toks[lo..k]`,
/// unquoted.
pub open spec fn last_input(toks: Seq<Seq<char>>, lo: int, k: int) -> Option<Seq<char>>
    decreases k - lo,
{
    if k <= lo {
        None
    } else {
        match input_device_spec(toks[k - 1]) {
            Some(d) => Some(d),
            None => last_input(toks, lo, k - 1),
        }
    }
}

proof fn lemma_last_input_front(toks: Seq<Seq<char>>, i: int, k: int)
    requires
        i < k,
    ensures
        last_input(toks, i, k) == match last_input(toks, i + 1, k) {
            Some(d) => Some(d),
            None => input_device_spec(toks[i]),
        },
    decreases k - i,
{
    if k > i + 1 {
        lemma_last_input_front(toks, i, k - 1);
    } else {
        assert(last_input(toks, i, i) is None);
        assert(last_input(toks, i + 1, k) is None);
    }
}

proof fn lemma_not_input(t: Seq<char>, p: Seq<char>)
    requires
        p.len() < 15 || (p.len() > 2 && p[2] != '-' && p[2] != 'i'),
        t == p,
    ensures
        input_device_spec(t) is None,
{
    reveal_strlit("--input-device=");
    if starts_with(t, "--input-device="@) {
        assert(t[2] == "--input-device="@[2]);
    }
}

#[verifier::rlimit(50)]
proof fn lemma_flag_step_input(f: FlagsView, excl: bool, t: Seq<char>, verb: Verb)
    ensures
        flag_step(f, excl, t, verb) matches Some((g, _)) ==> g.input == match input_device_spec(t) {
            Some(d) => d,
            None => f.input,
        },
{
    reveal_strlit("--release");
    reveal_strlit("--locked");
    reveal_strlit("--inhibited");
    reveal_strlit("--no-repeat");
    reveal_strlit("--no-warn");
    reveal_strlit("--to-code");
    reveal_strlit("--border");
    reveal_strlit("--whole-window");
    reveal_strlit("--exclude-titlebar");
    reveal_strlit("--reload");
    reveal_strlit("--exact");
    if t == "--release"@ || t == "--locked"@ || t == "--inhibited"@ || t == "--no-repeat"@ || t
        == "--no-warn"@ || t == "--to-code"@ || t == "--border"@ || t == "--whole-window"@ || t
        == "--reload"@ || t == "--exact"@ {
        lemma_not_input(t, t);
    }
    if t == "--exclude-titlebar"@ {
        lemma_not_input(t, "--exclude-titlebar"@);
    }
}

proof fn lemma_flags_input_from(toks: Seq<Seq<char>>, i: int, verb: Verb, f: FlagsView, excl: bool)
    requires
        0 <= i <= toks.len(),
    ensures
        flags_from(toks, i, verb, f, excl).0.input == match last_input(
            toks,
            i,
            flags_from(toks, i, verb, f, excl).1,
        ) {
            Some(d) => d,
            None => f.input,
        },
    decreases toks.len() - i,
{
    lemma_flags_from(toks, i, verb, f, excl);
    if i < toks.len() {
        lemma_flag_step_input(f, excl, toks[i], verb);
        if let Some((g, e)) = flag_step(f, excl, toks[i], verb) {
            lemma_flags_input_from(toks, i + 1, verb, g, e);
            lemma_flags_from(toks, i + 1, verb, g, e);
            lemma_last_input_front(toks, i, flags_from(toks, i + 1, verb, g, e).1);
        }
    }
}

/// The flag words that take no value.
pub open spec fn flag_lits() -> Seq<Seq<char>> {
    seq![
        "--release"@,
        "--locked"@,
        "--inhibited"@,
        "--no-repeat"@,
        "--no-warn"@,
        "--to-code"@,
        "--border"@,
        "--whole-window"@,
        "--exclude-titlebar"@,
        "--reload"@,
        "--exact"@,
    ]
}

#[verifier::rlimit(100)]
proof fn lemma_flag_lits_distinct()
    ensures
        forall|i: int, j: int|
            0 <= i < 11 && 0 <= j < 11 && i != j ==> #[trigger] flag_lits()[i] != #[trigger] flag_lits()[j],
{
    reveal_strlit("--release");
    reveal_strlit("--locked");
    reveal_strlit("--inhibited");
    reveal_strlit("--no-repeat");
    reveal_strlit("--no-warn");
    reveal_strlit("--to-code");
    reveal_strlit("--border");
    reveal_strlit("--whole-window");
    reveal_strlit("--exclude-titlebar");
    reveal_strlit("--reload");
    reveal_strlit("--exact");
    let l = flag_lits();
    assert forall|i: int, j: int| 0 <= i < 11 && 0 <= j < 11 && i != j implies #[trigger] l[i] != #[trigger] l[j] by {
        if l[i] == l[j] {
            assert(l[i].len() == l[j].len());
            assert(l[i][2] == l[j][2]);
        }
    }
}

/// Whether the word `lit` stands among `toks[lo..k]`.
pub open spec fn among(toks: Seq<Seq<char>>, lo: int, k: int, lit: Seq<char>) -> bool {
    exists|m: int| lo <= m < k && toks[m] == lit
}

proof fn lemma_among_front(toks: Seq<Seq<char>>, i: int, k: int, lit: Seq<char>)
    requires
        i < k,
    ensures
        among(toks, i, k, lit) == (toks[i] == lit || among(toks, i + 1, k, lit)),
{
    if among(toks, i, k, lit) {
        let m = choose|m: int| i <= m < k && toks[m] == lit;
        if m != i {
            assert(among(toks, i + 1, k, lit));
        }
    }
    if among(toks, i + 1, k, lit) {
        let m = choose|m: int| i + 1 <= m < k && toks[m] == lit;
        assert(i <= m < k && toks[m] == lit);
    }
}

/// What one accepted flag word does to the flags.
#[verifier::rlimit(100)]
proof fn lemma_flag_step_effect(f: FlagsView, excl: bool, t: Seq<char>, verb: Verb)
    ensures
        flag_step(f, excl, t, verb) matches Some((g, e)) ==> {
            &&& g.release == (f.release || t == "--release"@)
            &&& g.locked == (f.locked || t == "--locked"@)
            &&& g.inhibited == (f.inhibited || t == "--inhibited"@)
            &&& g.no_repeat == (f.no_repeat || t == "--no-repeat"@)
            &&& g.reload == (f.reload || t == "--reload"@)
            &&& g.exact == (f.exact || t == "--exact"@)
            &&& g.to_code == (if t == "--to-code"@ {
                verb == Verb::Sym
            } else {
                f.to_code
            })
            &&& g.border == (f.border || t == "--border"@ || t == "--whole-window"@)
            &&& g.contents == (f.contents || t == "--whole-window"@)
            &&& g.titlebar == (f.titlebar || t == "--whole-window"@)
            &&& e == (excl || t == "--exclude-titlebar"@)
        },
{
    lemma_flag_lits_distinct();
    let l = flag_lits();
    assert(l[0] == "--release"@ && l[1] == "--locked"@ && l[2] == "--inhibited"@ && l[3] == "--no-repeat"@);
    assert(l[4] == "--no-warn"@ && l[5] == "--to-code"@ && l[6] == "--border"@ && l[7] == "--whole-window"@);
    assert(l[8] == "--exclude-titlebar"@ && l[9] == "--reload"@ && l[10] == "--exact"@);
    if let Some((g, e)) = flag_step(f, excl, t, verb) {
        if input_device_spec(t) is Some {
            reveal_strlit("--release");
            reveal_strlit("--locked");
            reveal_strlit("--inhibited");
            reveal_strlit("--no-repeat");
            reveal_strlit("--no-warn");
            reveal_strlit("--to-code");
            reveal_strlit("--border");
            reveal_strlit("--whole-window");
            reveal_strlit("--exclude-titlebar");
            reveal_strlit("--reload");
            reveal_strlit("--exact");
            if t == "--release"@ || t == "--locked"@ || t == "--inhibited"@ || t == "--no-repeat"@ || t
                == "--no-warn"@ || t == "--to-code"@ || t == "--border"@ || t == "--whole-window"@ || t
                == "--reload"@ || t == "--exact"@ {
                lemma_not_input(t, t);
            }
            if t == "--exclude-titlebar"@ {
                lemma_not_input(t, "--exclude-titlebar"@);
            }
        }
    }
}

proof fn lemma_among_front_flags(toks: Seq<Seq<char>>, i: int, k: int)
    requires
        i < k,
    ensures
        among(toks, i, k, "--release"@) == (toks[i] == "--release"@ || among(toks, i + 1, k, "--release"@)),
        among(toks, i, k, "--locked"@) == (toks[i] == "--locked"@ || among(toks, i + 1, k, "--locked"@)),
        among(toks, i, k, "--inhibited"@) == (toks[i] == "--inhibited"@ || among(toks, i + 1, k, "--inhibited"@)),
        among(toks, i, k, "--no-repeat"@) == (toks[i] == "--no-repeat"@ || among(toks, i + 1, k, "--no-repeat"@)),
        among(toks, i, k, "--reload"@) == (toks[i] == "--reload"@ || among(toks, i + 1, k, "--reload"@)),
        among(toks, i, k, "--exact"@) == (toks[i] == "--exact"@ || among(toks, i + 1, k, "--exact"@)),
        among(toks, i, k, "--to-code"@) == (toks[i] == "--to-code"@ || among(toks, i + 1, k, "--to-code"@)),
        among(toks, i, k, "--border"@) == (toks[i] == "--border"@ || among(toks, i + 1, k, "--border"@)),
        among(toks, i, k, "--whole-window"@) == (toks[i] == "--whole-window"@ || among(
            toks,
            i + 1,
            k,
            "--whole-window"@,
        )),
        among(toks, i, k, "--exclude-titlebar"@) == (toks[i] == "--exclude-titlebar"@ || among(
            toks,
            i + 1,
            k,
            "--exclude-titlebar"@,
        )),
{
    lemma_among_front(toks, i, k, "--release"@);
    lemma_among_front(toks, i, k, "--locked"@);
    lemma_among_front(toks, i, k, "--inhibited"@);
    lemma_among_front(toks, i, k, "--no-repeat"@);
    lemma_among_front(toks, i, k, "--reload"@);
    lemma_among_front(toks, i, k, "--exact"@);
    lemma_among_front(toks, i, k, "--to-code"@);
    lemma_among_front(toks, i, k, "--border"@);
    lemma_among_front(toks, i, k, "--whole-window"@);
    lemma_among_front(toks, i, k, "--exclude-titlebar"@);
}

#[verifier::rlimit(100)]
proof fn lemma_flags_effect_from(toks: Seq<Seq<char>>, i: int, verb: Verb, f: FlagsView, excl: bool)
    requires
        0 <= i <= toks.len(),
    ensures
        ({
            let (g, k) = flags_from(toks, i, verb, f, excl);
            &&& g.release == (f.release || among(toks, i, k, "--release"@))
            &&& g.locked == (f.locked || among(toks, i, k, "--locked"@))
            &&& g.inhibited == (f.inhibited || among(toks, i, k, "--inhibited"@))
            &&& g.no_repeat == (f.no_repeat || among(toks, i, k, "--no-repeat"@))
            &&& g.reload == (f.reload || among(toks, i, k, "--reload"@))
            &&& g.exact == (f.exact || among(toks, i, k, "--exact"@))
            &&& g.to_code == (if among(toks, i, k, "--to-code"@) {
                verb == Verb::Sym
            } else {
                f.to_code
            })
            &&& g.border == (f.border || among(toks, i, k, "--border"@) || among(toks, i, k, "--whole-window"@))
            &&& g.contents == (f.contents || among(toks, i, k, "--whole-window"@))
            &&& g.titlebar == ((f.titlebar || among(toks, i, k, "--whole-window"@)) && !(excl || among(
                toks,
                i,
                k,
                "--exclude-titlebar"@,
            )))
        }),
    decreases toks.len() - i,
{
    lemma_flags_from(toks, i, verb, f, excl);
    let k = flags_from(toks, i, verb, f, excl).1;
    if i < toks.len() && flag_step(f, excl, toks[i], verb) is Some {
        let (g, e) = flag_step(f, excl, toks[i], verb)->0;
        lemma_flag_step_effect(f, excl, toks[i], verb);
        lemma_flags_effect_from(toks, i + 1, verb, g, e);
        lemma_flags_from(toks, i + 1, verb, g, e);
        assert(flags_from(toks, i, verb, f, excl) == flags_from(toks, i + 1, verb, g, e));
        lemma_among_front_flags(toks, i, k);
    } else {
        assert(k == i);
    }
}

/// The flags of a parsed binding record exactly the flag words before its
/// chord: `--release`, `--locked`, `--inhibited`, `--no-repeat`, `--reload`
/// and `--exact` each set their own flag and nothing else; `--border` sets
/// the border region and `--whole-window` every region; `--to-code` counts
/// only for `bindsym`; the input device is the one the last
/// `--input-device=` names, unquoted, else `*`.
pub proof fn lemma_parsed_flags(d: DirectiveView, r: ResolverView)
    requires
        parse_spec(d, r) is Some,
    ensures
        ({
            let toks = split_ws(d.text);
            let (verb, u) = verb_spec(toks[0])->0;
            let k = flags_from(toks, 1, verb, init_flags(), false).1;
            let (b, v) = parse_spec(d, r)->0;
            &&& b.flags.release == among(toks, 1, k, "--release"@)
            &&& b.flags.locked == among(toks, 1, k, "--locked"@)
            &&& b.flags.inhibited == among(toks, 1, k, "--inhibited"@)
            &&& b.flags.no_repeat == among(toks, 1, k, "--no-repeat"@)
            &&& b.flags.reload == among(toks, 1, k, "--reload"@)
            &&& b.flags.exact == among(toks, 1, k, "--exact"@)
            &&& b.flags.to_code == (verb == Verb::Sym && among(toks, 1, k, "--to-code"@))
            &&& b.flags.border == (among(toks, 1, k, "--border"@) || among(toks, 1, k, "--whole-window"@))
            &&& b.flags.contents == among(toks, 1, k, "--whole-window"@)
            &&& b.flags.input == match last_input(toks, 1, k) {
                Some(dev) => dev,
                None => "*"@,
            }
        }),
{
    let toks = split_ws(d.text);
    let (verb, u) = verb_spec(toks[0])->0;
    lemma_flags_effect_from(toks, 1, verb, init_flags(), false);
    lemma_flags_input_from(toks, 1, verb, init_flags(), false);
}

/// When a directive is no binding: blank, an unknown verb, nothing after
/// the flags, a command where `unbind*` allows none or none where `bind*`
/// needs one, or a key chord that does not parse. Otherwise it is one, and
/// it removes exactly when the verb is an `unbind*`.
pub proof fn lemma_parse_cases(d: DirectiveView, r: ResolverView)
    ensures
        ({
            let toks = split_ws(d.text);
            let fails = toks.len() == 0 || verb_spec(toks[0]) is None || ({
                let (verb, unbind) = verb_spec(toks[0])->0;
                let k = flags_from(toks, 1, verb, init_flags(), false).1;
                ||| k >= toks.len()
                ||| unbind != (k + 1 == toks.len())
                ||| ((verb == Verb::Sym || verb == Verb::Code) && chord_spec(toks[k], verb == Verb::Code) is None)
            });
            &&& (parse_spec(d, r) is None <==> fails)
            &&& parse_spec(d, r) matches Some((_, u)) ==> verb_spec(toks[0]) matches Some((_, v)) && u == v
        }),
{
    let toks = split_ws(d.text);
    if toks.len() > 0 {
        if let Some((verb, unbind)) = verb_spec(toks[0]) {
            lemma_flags_from(toks, 1, verb, init_flags(), false);
        }
    }
}

/// `--to-code` reaches the keycode list only when every keysym translates:
/// one keysym that does not sends a key binding to the keysym list.
pub proof fn lemma_one_failing_keysym(keys: Seq<KeyView>, f: FlagsView, r: ResolverView, i: int)
    requires
        !(f.border || f.contents || f.titlebar),
        keys.len() > 0,
        !is_button_spec(keys[0]),
        0 <= i < keys.len(),
        keys[i] matches KeyView::Sym(s) && !(r.resolves)(s),
    ensures
        bucket_spec(keys, f, false, r) == Bucket::Keysym,
{
    assert(!all_resolve(keys, r));
}

proof fn lemma_chord_from_keys(
    parts: Seq<Seq<char>>,
    i: int,
    mods: u32,
    keys: Seq<KeyView>,
    group: Option<u8>,
    bindcode: bool,
)
    ensures
        chord_from(parts, i, mods, keys, group, bindcode) matches Some((_, k, _)) ==> k.len() > 0,
    decreases parts.len() - i,
{
    if 0 <= i < parts.len() {
        let p = parts[i];
        if p.len() > 0 {
            match mod_bit(ascii_lower(p)) {
                Some(b) => lemma_chord_from_keys(parts, i + 1, mods | b, keys, group, bindcode),
                None => if p == "Mode_switch"@ {
                    lemma_chord_from_keys(parts, i + 1, mods, keys, Some(1u8), bindcode);
                } else if starts_with(p, "Group"@) {
                    if let Some(n) = parse_u32(p.skip(5)) {
                        if 1 <= n <= 4 {
                            lemma_chord_from_keys(parts, i + 1, mods, keys, Some((n - 1) as u8), bindcode);
                        }
                    }
                } else if bindcode {
                    if let Some(c) = parse_u32(p) {
                        lemma_chord_from_keys(parts, i + 1, mods, keys.push(KeyView::Code(c)), group, bindcode);
                    }
                } else {
                    lemma_chord_from_keys(parts, i + 1, mods, keys.push(KeyView::Sym(p)), group, bindcode);
                },
            }
        }
    }
}

/// The shape of a parsed `bindsym` / `bindcode` (or `unbind*`) binding: at
/// least one key; its modifier names are those of its mask; its chord is
/// those names and the shown keys joined by `+`; its comparison keys are its
/// keys as its list translates them, sorted, none lost or added; and it
/// carries the mode of its block, the comment above it, where it came from
/// and no shadow.
pub proof fn lemma_parse_shape(d: DirectiveView, r: ResolverView)
    requires
        parse_spec(d, r) is Some,
        verb_spec(split_ws(d.text)[0]) matches Some((v, _)) && (v == Verb::Sym || v == Verb::Code),
    ensures
        parse_spec(d, r) matches Some((b, _)) ==> {
            &&& b.kind == Kind::Chord
            &&& b.keys.len() > 0
            &&& b.modifiers == names_spec(b.mods)
            &&& b.chord == join(b.modifiers + shown_keys(b.keys, r), "+"@)
            &&& keys_sorted(b.sorted_keys)
            &&& b.sorted_keys.to_multiset() == translate_keys(b.keys, b.bucket, r).to_multiset()
            &&& b.mode == mode_spec(d.blocks)
            &&& b.comment == d.comment
            &&& b.origin == origin_spec(d)
            &&& b.shadowed_by is None
        },
{
    let toks = split_ws(d.text);
    let (verb, unbind) = verb_spec(toks[0])->0;
    let k = flags_from(toks, 1, verb, init_flags(), false).1;
    lemma_chord_from_keys(split_on(toks[k], '+'), 0, 0, seq![], None, verb == Verb::Code);
    let (b, u) = parse_spec(d, r)->0;
    lemma_sort_keys(translate_keys(b.keys, b.bucket, r));
}

/// The list a key binding lands in, decided in this order: any of the mouse
/// flags, or a button as the first key, gives the mouse list; else
/// `bindcode` gives the keycode list; else `--to-code` gives it when every
/// keysym translates to exactly one keycode; else the keysym list. Never a
/// switch or gesture list.
pub proof fn lemma_bucket_cases(keys: Seq<KeyView>, f: FlagsView, bindcode: bool, r: ResolverView)
    requires
        keys.len() > 0,
    ensures
        ({
            let b = bucket_spec(keys, f, bindcode, r);
            let mouse = f.border || f.contents || f.titlebar || is_button_spec(keys[0]);
            let resolved = forall|i: int|
                0 <= i < keys.len() ==> (#[trigger] keys[i] matches KeyView::Sym(s) ==> (r.resolves)(s));
            &&& (b == Bucket::Mouse <==> mouse)
            &&& (b == Bucket::Keycode <==> !mouse && (bindcode || (f.to_code && resolved)))
            &&& (b == Bucket::Keysym <==> !mouse && !bindcode && !(f.to_code && resolved))
            &&& b != Bucket::Switch && b != Bucket::Gesture
        }),
{
    let resolved = forall|i: int|
        0 <= i < keys.len() ==> (#[trigger] keys[i] matches KeyView::Sym(s) ==> (r.resolves)(s));
    assert(all_resolve(keys, r) <==> resolved) by {
        if resolved {
            assert forall|i: int| 0 <= i < keys.len() implies match #[trigger] keys[i] {
                KeyView::Sym(s) => (r.resolves)(s),
                KeyView::Code(_) => true,
            } by {
                assert(keys[i] matches KeyView::Sym(s) ==> (r.resolves)(s));
            }
        }
    }
}

// ------------------------------------------------------------ mods laws
proof fn lemma_concat_contains(a: Seq<Seq<char>>, b: Seq<Seq<char>>, x: Seq<char>)
    ensures
        (a + b).contains(x) <==> a.contains(x) || b.contains(x),
{
    if (a + b).contains(x) {
        let i = choose|i: int| 0 <= i < (a + b).len() && (a + b)[i] == x;
        if i < a.len() {
            assert(a[i] == x);
        } else {
            assert(b[i - a.len()] == x);
        }
    }
    if a.contains(x) {
        let i = choose|i: int| 0 <= i < a.len() && a[i] == x;
        assert((a + b)[i] == x);
    }
    if b.contains(x) {
        let i = choose|i: int| 0 <= i < b.len() && b[i] == x;
        assert((a + b)[a.len() + i] == x);
    }
}

proof fn lemma_name_if_contains(m: u32, bit: u32, name: Seq<char>, x: Seq<char>)
    ensures
        name_if(m, bit, name).contains(x) <==> (m & bit != 0 && name == x),
{
    if m & bit != 0 {
        assert(name_if(m, bit, name)[0] == name);
    }
}

pub open spec fn mod_lits() -> Seq<Seq<char>> {
    seq!["Super"@, "Ctrl"@, "Alt"@, "Shift"@, "Lock"@, "Mod2"@, "Mod3"@, "Mod5"@]
}

pub open spec fn mod_bits() -> Seq<u32> {
    seq![64u32, 4u32, 8u32, 1u32, 2u32, 16u32, 32u32, 128u32]
}

/// The names of the first `n` bits of the fixed order.
pub open spec fn names_upto(m: u32, n: int) -> Seq<Seq<char>>
    decreases n,
{
    if n <= 0 {
        seq![]
    } else {
        names_upto(m, n - 1) + name_if(m, mod_bits()[n - 1], mod_lits()[n - 1])
    }
}

#[verifier::rlimit(50)]
proof fn lemma_mod_lits_distinct()
    ensures
        forall|i: int, j: int|
            0 <= i < 8 && 0 <= j < 8 && i != j ==> #[trigger] mod_lits()[i] != #[trigger] mod_lits()[j],
{
    reveal_strlit("Super");
    reveal_strlit("Ctrl");
    reveal_strlit("Alt");
    reveal_strlit("Shift");
    reveal_strlit("Lock");
    reveal_strlit("Mod2");
    reveal_strlit("Mod3");
    reveal_strlit("Mod5");
    let l = mod_lits();
    assert forall|i: int, j: int| 0 <= i < 8 && 0 <= j < 8 && i != j implies #[trigger] l[i] != #[trigger] l[j] by {
        if l[i] == l[j] {
            assert(l[i].len() == l[j].len());
            assert(l[i][1] == l[j][1]);
            assert(l[i][l[i].len() - 1] == l[j][l[j].len() - 1]);
        }
    }
}

proof fn lemma_names_upto(m: u32, n: int, x: Seq<char>)
    requires
        0 <= n <= 8,
    ensures
        names_upto(m, n).contains(x) <==> exists|i: int|
            0 <= i < n && m & #[trigger] mod_bits()[i] != 0 && mod_lits()[i] == x,
    decreases n,
{
    if n > 0 {
        lemma_names_upto(m, n - 1, x);
        lemma_concat_contains(names_upto(m, n - 1), name_if(m, mod_bits()[n - 1], mod_lits()[n - 1]), x);
        lemma_name_if_contains(m, mod_bits()[n - 1], mod_lits()[n - 1], x);
        if names_upto(m, n).contains(x) {
            if !names_upto(m, n - 1).contains(x) {
                assert(m & mod_bits()[n - 1] != 0 && mod_lits()[n - 1] == x);
            }
        }
    }
}

/// The names of a mask, as a function of its eight bits: the `j`-th name of
/// the fixed order is there exactly when its bit is set.
proof fn lemma_names_bits(m: u32, j: int)
    requires
        0 <= j < 8,
    ensures
        names_spec(m).contains(mod_lits()[j]) <==> m & mod_bits()[j] != 0,
{
    assert(names_spec(m) =~= names_upto(m, 8)) by {
        reveal_with_fuel(names_upto, 9);
    }
    lemma_names_upto(m, 8, mod_lits()[j]);
    lemma_mod_lits_distinct();
    if names_spec(m).contains(mod_lits()[j]) {
        let i = choose|i: int| 0 <= i < 8 && m & #[trigger] mod_bits()[i] != 0 && mod_lits()[i] == mod_lits()[j];
        assert(i == j);
    }
}

/// No modifier name holds a `+`, so a chord splits back at its `+`s.
pub proof fn lemma_names_plain(m: u32)
    ensures
        forall|i: int| 0 <= i < names_spec(m).len() ==> !(#[trigger] names_spec(m)[i]).contains('+'),
{
    reveal_strlit("Super");
    reveal_strlit("Ctrl");
    reveal_strlit("Alt");
    reveal_strlit("Shift");
    reveal_strlit("Lock");
    reveal_strlit("Mod2");
    reveal_strlit("Mod3");
    reveal_strlit("Mod5");
    assert(names_spec(m) =~= names_upto(m, 8)) by {
        reveal_with_fuel(names_upto, 9);
    }
    assert forall|i: int| 0 <= i < names_spec(m).len() implies !(#[trigger] names_spec(m)[i]).contains('+') by {
        let x = names_spec(m)[i];
        assert(names_spec(m).contains(x));
        lemma_names_upto(m, 8, x);
        let j = choose|j: int| 0 <= j < 8 && m & #[trigger] mod_bits()[j] != 0 && mod_lits()[j] == x;
        if x.contains('+') {
            let k = choose|k: int| 0 <= k < x.len() && x[k] == '+';
            assert(mod_lits()[j][k] == '+');
        }
    }
}

/// Two masks read the same exactly when their eight modifier bits agree:
/// the names are the bits, nothing more and nothing less.
pub proof fn lemma_names_are_the_bits(a: u32, b: u32)
    ensures
        names_spec(a) == names_spec(b) <==> a & 0xff == b & 0xff,
{
    assert forall|j: int| 0 <= j < 8 implies (names_spec(a).contains(mod_lits()[j]) <==> a & #[trigger] mod_bits()[j] != 0)
        && (names_spec(b).contains(mod_lits()[j]) <==> b & mod_bits()[j] != 0) by {
        lemma_names_bits(a, j);
        lemma_names_bits(b, j);
    }
    assert(mod_bits()[0] == 64 && mod_bits()[1] == 4 && mod_bits()[2] == 8 && mod_bits()[3] == 1);
    assert(mod_bits()[4] == 2 && mod_bits()[5] == 16 && mod_bits()[6] == 32 && mod_bits()[7] == 128);
    if names_spec(a) == names_spec(b) {
        assert((a & 1 != 0) == (b & 1 != 0) && (a & 2 != 0) == (b & 2 != 0) && (a & 4 != 0) == (b & 4
            != 0) && (a & 8 != 0) == (b & 8 != 0) && (a & 16 != 0) == (b & 16 != 0) && (a & 32 != 0)
            == (b & 32 != 0) && (a & 64 != 0) == (b & 64 != 0) && (a & 128 != 0) == (b & 128 != 0));
        assert(a & 0xff == b & 0xff) by (bit_vector)
            requires
                (a & 1 != 0) == (b & 1 != 0) && (a & 2 != 0) == (b & 2 != 0) && (a & 4 != 0) == (b & 4
                    != 0) && (a & 8 != 0) == (b & 8 != 0) && (a & 16 != 0) == (b & 16 != 0) && (a & 32
                    != 0) == (b & 32 != 0) && (a & 64 != 0) == (b & 64 != 0) && (a & 128 != 0) == (b
                    & 128 != 0),
        ;
    }
    if a & 0xff == b & 0xff {
        assert((a & 1 != 0) == (b & 1 != 0) && (a & 2 != 0) == (b & 2 != 0) && (a & 4 != 0) == (b & 4
            != 0) && (a & 8 != 0) == (b & 8 != 0) && (a & 16 != 0) == (b & 16 != 0) && (a & 32 != 0)
            == (b & 32 != 0) && (a & 64 != 0) == (b & 64 != 0) && (a & 128 != 0) == (b & 128 != 0))
            by (bit_vector)
            requires
                a & 0xff == b & 0xff,
        ;
        assert(names_spec(a) =~= names_spec(b)) by {
            assert(name_if(a, 64, "Super"@) == name_if(b, 64, "Super"@));
            assert(name_if(a, 4, "Ctrl"@) == name_if(b, 4, "Ctrl"@));
            assert(name_if(a, 8, "Alt"@) == name_if(b, 8, "Alt"@));
            assert(name_if(a, 1, "Shift"@) == name_if(b, 1, "Shift"@));
            assert(name_if(a, 2, "Lock"@) == name_if(b, 2, "Lock"@));
            assert(name_if(a, 16, "Mod2"@) == name_if(b, 16, "Mod2"@));
            assert(name_if(a, 32, "Mod3"@) == name_if(b, 32, "Mod3"@));
            assert(name_if(a, 128, "Mod5"@) == name_if(b, 128, "Mod5"@));
        }
    }
}
} // verus!
