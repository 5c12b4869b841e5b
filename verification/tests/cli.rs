use swaykeys::cli::{output_format, use_pager, want_color, Format, When};

#[test]
fn no_color_needs_a_value_to_mean_anything() {
    assert!(want_color(When::Auto, true, None));
    assert!(want_color(When::Auto, true, Some(b"")));
    assert!(!want_color(When::Auto, true, Some(b"1")));
    assert!(!want_color(When::Auto, true, Some(b"0")));
}

#[test]
fn an_explicit_color_flag_outranks_both_the_terminal_and_no_color() {
    assert!(want_color(When::Always, false, Some(b"1")));
    assert!(!want_color(When::Never, true, None));
}

#[test]
fn auto_stays_off_when_there_is_no_terminal() {
    assert!(!want_color(When::Auto, false, None));
}

#[test]
fn the_pager_opens_only_on_a_terminal_without_a_layout_request() {
    assert!(use_pager(When::Auto, true, Format::Auto, false));
    assert!(!use_pager(When::Auto, false, Format::Auto, false));
    assert!(!use_pager(When::Auto, true, Format::Md, false));
    assert!(!use_pager(When::Auto, true, Format::Auto, true));
    assert!(use_pager(When::Always, false, Format::Json, true));
    assert!(!use_pager(When::Never, true, Format::Auto, false));
}

#[test]
fn piped_output_defaults_to_markdown_unless_two_columns() {
    assert_eq!(output_format(Format::Auto, false, false), Format::Md);
    assert_eq!(output_format(Format::Auto, true, false), Format::Plain);
    assert_eq!(output_format(Format::Auto, false, true), Format::Plain);
    assert_eq!(output_format(Format::Json, true, true), Format::Json);
}
