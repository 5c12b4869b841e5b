use swaykeys::group::{Row, Section};
use swaykeys::theme::Colour;
use swaykeys::tui::{entries_for_scores, row_segments, Entry, Key, Look, Pager};

fn row(key: &str, text: &str) -> Row {
    Row {
        modifiers: vec!["Super".into()],
        key: key.into(),
        text: text.into(),
        command: text.into(),
        origin: "t:1".into(),
        shadowed_by: None,
    }
}

fn sheet() -> Vec<Section> {
    vec![
        Section {
            title: "Standard".into(),
            rows: vec![row("Return", "exec foot"), row("q", "kill"), row("d", "exec wmenu-run")],
        },
        Section {
            title: "resize".into(),
            rows: vec![row("h", "resize shrink width"), row("l", "resize grow width")],
        },
    ]
}

fn typed(p: &mut Pager, s: &str) {
    for c in s.chars() {
        assert!(!p.handle(Key::Char { c, ctrl: false }, 10));
    }
}

#[test]
fn an_empty_filter_shows_everything_under_its_heading() {
    let p = Pager::new(sheet());
    assert_eq!(
        p.entries(),
        &vec![
            Entry::Heading { section: 0 },
            Entry::Row { section: 0, row: 0 },
            Entry::Row { section: 0, row: 1 },
            Entry::Row { section: 0, row: 2 },
            Entry::Heading { section: 1 },
            Entry::Row { section: 1, row: 0 },
            Entry::Row { section: 1, row: 1 },
        ]
    );
    assert_eq!(p.cursor(), 1);
    assert_eq!(p.matches(), 5);
    assert_eq!(p.total(), 5);
    assert_eq!(p.key_width(), "Super+Return".len());
}

#[test]
fn a_filter_keeps_only_sections_with_a_match() {
    let mut p = Pager::new(sheet());
    typed(&mut p, "grow");
    assert_eq!(p.filter(), "grow");
    assert_eq!(
        p.entries(),
        &vec![Entry::Heading { section: 1 }, Entry::Row { section: 1, row: 1 }]
    );
    assert_eq!(p.cursor(), 1);
    assert_eq!(p.current_row().map(|r| r.text.as_str()), Some("resize grow width"));
    // The section name matches too.
    assert!(!p.handle(Key::Char { c: 'u', ctrl: true }, 10));
    typed(&mut p, "resize");
    assert_eq!(p.matches(), 2);
    typed(&mut p, "zzzz");
    assert!(p.entries().is_empty());
    assert_eq!(p.cursor(), 0);
    assert!(p.current_row().is_none());
}

#[test]
fn scores_rank_within_a_section_only() {
    let scores = vec![vec![Some(1), None, Some(5), Some(5)], vec![None], vec![Some(2)]];
    assert_eq!(
        entries_for_scores(&scores, true),
        vec![
            Entry::Heading { section: 0 },
            Entry::Row { section: 0, row: 2 },
            Entry::Row { section: 0, row: 3 },
            Entry::Row { section: 0, row: 0 },
            Entry::Heading { section: 2 },
            Entry::Row { section: 2, row: 0 },
        ]
    );
    assert_eq!(
        entries_for_scores(&scores, false)[1..4],
        [
            Entry::Row { section: 0, row: 0 },
            Entry::Row { section: 0, row: 2 },
            Entry::Row { section: 0, row: 3 },
        ]
    );
}

#[test]
fn the_cursor_skips_headings_and_stops_at_the_ends() {
    let mut p = Pager::new(sheet());
    assert!(!p.handle(Key::Down, 10));
    assert!(!p.handle(Key::Down, 10));
    assert_eq!(p.cursor(), 3);
    assert!(!p.handle(Key::Down, 10));
    assert_eq!(p.cursor(), 5, "heading skipped");
    assert!(!p.handle(Key::PageDown, 10));
    assert_eq!(p.cursor(), 5, "a move past the end does nothing");
    assert!(!p.handle(Key::End, 10));
    assert_eq!(p.cursor(), 6);
    assert!(!p.handle(Key::Char { c: 'p', ctrl: true }, 10));
    assert_eq!(p.cursor(), 5);
    assert!(!p.handle(Key::Home, 10));
    assert_eq!(p.cursor(), 1);
    assert!(!p.handle(Key::Up, 10));
    assert_eq!(p.cursor(), 1);
}

#[test]
fn quit_keys_and_q() {
    let mut p = Pager::new(sheet());
    assert!(p.handle(Key::Esc, 10));
    assert!(p.handle(Key::Enter, 10));
    assert!(p.handle(Key::Char { c: 'c', ctrl: true }, 10));
    assert!(p.handle(Key::Char { c: 'd', ctrl: true }, 10));
    // `q` goes into the filter, as in fzf.
    assert!(!p.handle(Key::Char { c: 'q', ctrl: false }, 10));
    assert_eq!(p.filter(), "q");
}

#[test]
fn ctrl_w_deletes_the_last_word() {
    let mut p = Pager::new(sheet());
    typed(&mut p, "exec foot  ");
    assert!(!p.handle(Key::Char { c: 'w', ctrl: true }, 10));
    assert_eq!(p.filter(), "exec ");
    assert!(!p.handle(Key::Char { c: 'w', ctrl: true }, 10));
    assert_eq!(p.filter(), "");
    assert!(!p.handle(Key::Backspace, 10));
    assert_eq!(p.filter(), "");
    typed(&mut p, "ab");
    assert!(!p.handle(Key::Backspace, 10));
    assert_eq!(p.filter(), "a");
}

#[test]
fn scrolling_keeps_the_cursor_visible_and_the_heading_sticks() {
    let mut p = Pager::new(sheet());
    assert!(!p.handle(Key::End, 3));
    p.scroll_into_view(3);
    assert_eq!(p.cursor(), 6);
    assert_eq!(p.offset(), 4);
    assert_eq!(p.sticky_heading(), None);
    p.scroll_into_view(2);
    assert_eq!(p.offset(), 5);
    assert_eq!(p.sticky_heading(), Some("resize".to_string()));
    assert!(!p.handle(Key::Home, 3));
    p.scroll_into_view(3);
    assert_eq!(p.offset(), 0);
    assert_eq!(p.sticky_heading(), None);
}

#[test]
fn a_row_line_is_coloured_and_padded() {
    let r = row("Return", "exec foot");
    let segs = row_segments(&r, true, 14);
    assert_eq!(
        segs,
        vec![
            ("> ".to_string(), Look::Plain),
            ("Super".to_string(), Look::Colour { colour: Colour::Magenta }),
            ("+".to_string(), Look::Dim),
            ("Return".to_string(), Look::Bold),
            ("    ".to_string(), Look::Plain),
            ("exec foot".to_string(), Look::Dim),
        ]
    );
}

#[test]
fn a_dead_row_is_dimmed_and_struck() {
    let mut r = row("q", "kill");
    r.shadowed_by = Some("t:2".into());
    let segs = row_segments(&r, false, 0);
    assert_eq!(segs[0], ("  ".to_string(), Look::Plain));
    assert_eq!(segs[1], ("Super".to_string(), Look::Dim));
    assert_eq!(segs[3], ("q".to_string(), Look::DimStruck));
    assert_eq!(segs[4], ("  ".to_string(), Look::Plain));
}
