//! One palette, two renderers.
//!
//! The static sheet writes ANSI escapes directly and the pager goes through
//! ratatui, so the two cannot share a representation, but they must share the
//! decisions, which live here.
//!
//! Only the 16 ANSI slots are used, never truecolor: the terminal's own theme
//! then picks the actual shades, so the sheet stays readable on light and dark
//! backgrounds without us guessing either.
//!
//! Every colour means exactly one thing. There is no free slot left for section
//! headings, which is why they are bold and underlined instead.

use vstd::prelude::*;
use crate::text::{chars_of, eq_lit};

verus! {

/// The ANSI colours in use, and what each one means.
#[derive(Debug, Clone, Copy, PartialEq, Eq, Structural)]
pub enum Colour {
    /// Super / the logo key.
    Magenta,
    /// Ctrl.
    Yellow,
    /// Alt.
    Cyan,
    /// Shift.
    Green,
    /// Any other modifier, and the pager's prompt.
    Blue,
    /// Reserved for "this binding never fires".
    Red,
}

/// The terminal colour type of the pager's widget library.
#[verifier::external_type_specification]
#[verifier::external_body]
pub struct ExWidgetColor(ratatui::style::Color);

/// SGR foreground escape of a colour.
pub open spec fn ansi_spec(c: Colour) -> Seq<char> {
    match c {
        Colour::Magenta => "\x1b[35m"@,
        Colour::Yellow => "\x1b[33m"@,
        Colour::Cyan => "\x1b[36m"@,
        Colour::Green => "\x1b[32m"@,
        Colour::Blue => "\x1b[34m"@,
        Colour::Red => "\x1b[31m"@,
    }
}

impl Colour {
    /// SGR foreground escape, for the static sheet.
    pub fn ansi(self) -> (r: &'static str)
        ensures
            r@ == ansi_spec(self),
    {
        match self {
            Colour::Magenta => "\x1b[35m",
            Colour::Yellow => "\x1b[33m",
            Colour::Cyan => "\x1b[36m",
            Colour::Green => "\x1b[32m",
            Colour::Blue => "\x1b[34m",
            Colour::Red => "\x1b[31m",
        }
    }

    /// The same colour, for ratatui: the variant of `ratatui::style::Color`
    /// with the same name. Nothing about the result is stated here, since
    /// that type is opaque to the proofs.
    #[verifier::external_body]
    pub fn ratatui(self) -> ratatui::style::Color {
        match self {
            Colour::Magenta => ratatui::style::Color::Magenta,
            Colour::Yellow => ratatui::style::Color::Yellow,
            Colour::Cyan => ratatui::style::Color::Cyan,
            Colour::Green => ratatui::style::Color::Green,
            Colour::Blue => ratatui::style::Color::Blue,
            Colour::Red => ratatui::style::Color::Red,
        }
    }
}

/// The colour of a modifier name.
pub open spec fn modifier_spec(name: Seq<char>) -> Colour {
    if name == "Super"@ {
        Colour::Magenta
    } else if name == "Ctrl"@ {
        Colour::Yellow
    } else if name == "Alt"@ {
        Colour::Cyan
    } else if name == "Shift"@ {
        Colour::Green
    } else {
        Colour::Blue
    }
}

/// Modifier names are coloured so a chord can be taken in at a glance rather
/// than read left to right. Red is never one of them: it stays free to mean
/// "never fires".
pub fn modifier(name: &str) -> (c: Colour)
    ensures
        c == modifier_spec(name@),
        c != Colour::Red,
{
    let v = chars_of(name);
    if eq_lit(&v, "Super") {
        Colour::Magenta
    } else if eq_lit(&v, "Ctrl") {
        Colour::Yellow
    } else if eq_lit(&v, "Alt") {
        Colour::Cyan
    } else if eq_lit(&v, "Shift") {
        Colour::Green
    } else {
        Colour::Blue
    }
}

/// The four named modifiers get four different colours, none of them red.
pub proof fn lemma_modifiers_distinct()
    ensures
        modifier_spec("Super"@) != modifier_spec("Ctrl"@),
        modifier_spec("Super"@) != modifier_spec("Alt"@),
        modifier_spec("Super"@) != modifier_spec("Shift"@),
        modifier_spec("Ctrl"@) != modifier_spec("Alt"@),
        modifier_spec("Ctrl"@) != modifier_spec("Shift"@),
        modifier_spec("Alt"@) != modifier_spec("Shift"@),
        forall|n: Seq<char>| modifier_spec(n) != Colour::Red,
{
    reveal_strlit("Super");
    reveal_strlit("Ctrl");
    reveal_strlit("Alt");
    reveal_strlit("Shift");
    assert("Ctrl"@ != "Super"@ && "Alt"@ != "Super"@ && "Alt"@ != "Ctrl"@) by {
        assert("Super"@.len() == 5 && "Ctrl"@.len() == 4 && "Alt"@.len() == 3);
    }
    assert("Shift"@ != "Super"@ && "Shift"@ != "Ctrl"@ && "Shift"@ != "Alt"@) by {
        assert("Shift"@[1] != "Super"@[1]);
        assert("Shift"@.len() == 5);
    }
}

/// Different colours have different escapes, and every escape is an SGR
/// foreground code (`ESC [ 3 x m`).
pub proof fn lemma_ansi_distinct(a: Colour, b: Colour)
    ensures
        a != b ==> ansi_spec(a) != ansi_spec(b),
        ansi_spec(a).len() == 5,
        ansi_spec(a).take(3) == seq!['\x1b', '[', '3'],
{
    reveal_strlit("\x1b[35m");
    reveal_strlit("\x1b[33m");
    reveal_strlit("\x1b[36m");
    reveal_strlit("\x1b[32m");
    reveal_strlit("\x1b[34m");
    reveal_strlit("\x1b[31m");
    if a != b {
        assert(ansi_spec(a)[3] != ansi_spec(b)[3]);
    }
    assert(ansi_spec(a).take(3) =~= seq!['\x1b', '[', '3']);
}

} // verus!
