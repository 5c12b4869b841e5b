use swaykeys::group::{Row, Section};
use swaykeys::render::{markdown, plain, plain_fits, visible_len, Style};

fn row(modifiers: &[&str], key: &str, text: &str) -> Row {
    Row {
        modifiers: modifiers.iter().map(|s| s.to_string()).collect(),
        key: key.into(),
        text: text.into(),
        command: text.into(),
        origin: "t:1".into(),
        shadowed_by: None,
    }
}

#[test]
fn visible_len_ignores_escapes() {
    assert_eq!(visible_len("\x1b[1mabc\x1b[0m"), 3);
    assert_eq!(visible_len("abc"), 3);
}

#[test]
fn colour_does_not_disturb_alignment() {
    let sections = [Section {
        title: "Standard".into(),
        rows: vec![row(&["Super"], "Return", "exec foot"), row(&[], "a", "nop")],
    }];
    let plain_out = plain(&sections, Style { color: false }, 1, 200);
    let colour_out = plain(&sections, Style { color: true }, 1, 200);
    let strip = |s: &str| s.lines().map(visible_len).collect::<Vec<_>>();
    assert_eq!(strip(&plain_out), strip(&colour_out));
}

#[test]
fn two_columns_balance_and_repeat_the_heading() {
    let sections = [Section {
        title: "Standard".into(),
        rows: vec![row(&[], "a", "one"); 20],
    }];
    let out = plain(&sections, Style { color: false }, 2, 200);

    assert!(
        out.contains("Standard (cont.)"),
        "heading not repeated:\n{out}"
    );
    assert_eq!(out.matches("one").count(), 20);
    assert!(
        out.lines().count() < 15,
        "not balanced: {} lines",
        out.lines().count()
    );
}

#[test]
fn a_column_starting_on_a_heading_does_not_repeat_it() {
    let sections = [
        Section {
            title: "A".into(),
            rows: vec![row(&[], "a", "one"); 3],
        },
        Section {
            title: "B".into(),
            rows: vec![row(&[], "b", "two"); 3],
        },
    ];
    let out = plain(&sections, Style { color: false }, 2, 200);
    assert!(!out.contains("(cont.)"), "spurious continuation:\n{out}");
}

#[test]
fn markdown_pads_its_columns() {
    let sections = [Section {
        title: "Standard".into(),
        rows: vec![row(&["Super"], "Return", "exec foot"), row(&[], "a", "nop")],
    }];
    let out = markdown(&sections);
    let widths: Vec<usize> = out
        .lines()
        .filter(|l| l.starts_with('|'))
        .map(|l| l.chars().count())
        .collect();
    assert!(
        widths.windows(2).all(|w| w[0] == w[1]),
        "ragged table:\n{out}"
    );
}

#[test]
fn markdown_is_exact() {
    let sections = [Section {
        title: "Standard".into(),
        rows: vec![row(&["Super"], "Return", "exec foot"), row(&[], "a", "nop")],
    }];
    let out = markdown(&sections);
    assert_eq!(
        out,
        "## Standard\n\n\
         | Key            | Action    |\n\
         | -------------- | --------- |\n\
         | `Super+Return` | exec foot |\n\
         | `a`            | nop       |\n\
         \n"
    );
}

#[test]
fn plain_single_column_is_exact() {
    let mut shadowed = row(&[], "b", "old");
    shadowed.shadowed_by = Some("t:9".into());
    let sections = [
        Section {
            title: "Standard".into(),
            rows: vec![row(&["Super"], "Return", "exec foot"), row(&[], "a", "nop")],
        },
        Section {
            title: "Other".into(),
            rows: vec![shadowed],
        },
    ];
    let out = plain(&sections, Style { color: false }, 1, 80);
    assert_eq!(
        out,
        "Standard\n  Super+Return  exec foot\n  a             nop\n\nOther\n  b             old  (shadowed by t:9)\n"
    );
}

#[test]
fn colour_paints_modifiers_key_and_heading() {
    let sections = [Section {
        title: "S".into(),
        rows: vec![row(&["Ctrl"], "x", "cut")],
    }];
    let out = plain(&sections, Style { color: true }, 1, 80);
    assert!(out.starts_with("\x1b[1m\x1b[4mS\x1b[0m\n"), "{out:?}");
    assert!(out.contains("\x1b[33mCtrl\x1b[0m\x1b[2m+\x1b[0m\x1b[1mx\x1b[0m"), "{out:?}");
}

#[test]
fn long_text_is_clipped_only_with_columns() {
    let long = "x".repeat(100);
    let sections = [Section {
        title: "S".into(),
        rows: vec![row(&[], "a", &long), row(&[], "b", "y")],
    }];
    let one = plain(&sections, Style { color: false }, 1, 40);
    assert!(one.contains(&long));
    let two = plain(&sections, Style { color: false }, 2, 40);
    assert!(!two.contains(&long));
    assert!(two.contains('…'));
}

#[test]
fn plain_fits_refuses_columns_over_nothing() {
    assert!(!plain_fits(&[], 2));
    assert!(plain_fits(&[], 1));
    assert!(!plain_fits(&[], usize::MAX));
}
