//! The command line's decisions: colour, pager, output format.
//!
//! Parsing the arguments and asking the terminal are done by the program;
//! what it does with the answers is decided here.

use vstd::prelude::*;

verus! {

/// `auto`, `always` or `never`.
#[derive(Debug, Clone, Copy, PartialEq, Eq, Structural)]
pub enum When {
    Auto,
    Always,
    Never,
}

/// Output format. `Auto` is the aligned sheet on a terminal, markdown when
/// piped.
#[derive(Debug, Clone, Copy, PartialEq, Eq, Structural)]
pub enum Format {
    Auto,
    Plain,
    Md,
    Json,
}

/// Colour on: asked for explicitly, or a terminal that `NO_COLOR` has not
/// silenced. no-color.org asks for present and non-empty, not merely present.
pub open spec fn want_color_spec(when: When, tty: bool, no_color: Option<Seq<u8>>) -> bool {
    match when {
        When::Always => true,
        When::Never => false,
        When::Auto => tty && !(no_color matches Some(v) && v.len() > 0),
    }
}

/// Colour on: asked for explicitly, or a terminal that `NO_COLOR` (its value,
/// when set) has not silenced. An explicit choice outranks both the terminal
/// and the environment.
pub fn want_color(when: When, tty: bool, no_color: Option<&[u8]>) -> (r: bool)
    ensures
        r == want_color_spec(
            when,
            tty,
            match no_color {
                Some(v) => Some(v@),
                None => None,
            },
        ),
{
    match when {
        When::Always => true,
        When::Never => false,
        When::Auto => tty && !(match no_color {
            Some(v) => v.len() > 0,
            None => false,
        }),
    }
}

/// Whether the pager opens. Asking for a particular layout is asking for
/// text, so an explicit `--format` or `-2` turns it off; otherwise it opens
/// on a terminal and stays out of the way in a pipe.
pub open spec fn use_pager_spec(pager: When, tty: bool, format: Format, two_column: bool) -> bool {
    match pager {
        When::Always => true,
        When::Never => false,
        When::Auto => tty && format == Format::Auto && !two_column,
    }
}

pub fn use_pager(pager: When, tty: bool, format: Format, two_column: bool) -> (r: bool)
    ensures
        r == use_pager_spec(pager, tty, format, two_column),
{
    match pager {
        When::Always => true,
        When::Never => false,
        When::Auto => tty && format == Format::Auto && !two_column,
    }
}

/// The format actually written. Piped output is for reading elsewhere, so
/// markdown is the default there, and the aligned sheet is for the terminal;
/// `-2` asks for a text layout and so means the aligned sheet.
pub open spec fn output_format_spec(format: Format, tty: bool, two_column: bool) -> Format {
    match format {
        Format::Auto => if tty || two_column {
            Format::Plain
        } else {
            Format::Md
        },
        other => other,
    }
}

pub fn output_format(format: Format, tty: bool, two_column: bool) -> (r: Format)
    ensures
        r == output_format_spec(format, tty, two_column),
        r != Format::Auto,
{
    match format {
        Format::Auto => if tty || two_column {
            Format::Plain
        } else {
            Format::Md
        },
        other => other,
    }
}

/// The written format is never left undecided, and `-2` alone gets the
/// two-column sheet whether or not the output is a terminal.
pub proof fn lemma_two_column_means_plain(tty: bool)
    ensures
        output_format_spec(Format::Auto, tty, true) == Format::Plain,
        !use_pager_spec(When::Auto, tty, Format::Auto, true),
{
}

} // verus!
