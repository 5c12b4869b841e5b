use swaykeys::group::{description, sections, shadow_refs_valid, Opts, Row};
use swaykeys::model::{build, Optimistic};
use swaykeys::source::Directive;

fn desc(lines: &[&str]) -> Option<String> {
    description(&lines.iter().map(|s| s.to_string()).collect::<Vec<_>>())
}

fn dir(text: &str, blocks: &[&str], comment: &[&str]) -> Directive {
    Directive {
        text: text.into(),
        blocks: blocks.iter().map(|s| s.to_string()).collect(),
        file: "t".to_string(),
        line: 1,
        comment: comment.iter().map(|s| s.to_string()).collect(),
    }
}

#[test]
fn description_takes_the_first_sentence() {
    assert_eq!(
        desc(&["Reload config on Mod+Shift+R (muscle memory). Default is Mod+Shift+C."]),
        Some("Reload config on Mod+Shift+R (muscle memory)".into())
    );
}

#[test]
fn description_spans_wrapped_comment_lines() {
    assert_eq!(
        desc(&[
            "Re-home floating toggle",
            "and nothing else. Mnemonic: sibling of f."
        ]),
        Some("Re-home floating toggle and nothing else".into())
    );
}

#[test]
fn description_drops_a_lone_trailing_period() {
    assert_eq!(
        desc(&["Kill the focused window."]),
        Some("Kill the focused window".into())
    );
}

#[test]
fn description_truncates_at_a_word_boundary() {
    let long = "a".repeat(40) + " " + &"b".repeat(40);
    let got = desc(&[&long]).unwrap();
    assert!(got.ends_with('…'), "got {got}");
    assert!(
        got.chars().count() <= 72,
        "got {} chars",
        got.chars().count()
    );
    // Cut between the words, not inside one.
    assert!(!got.contains('b'), "got {got}");
}

#[test]
fn no_comment_means_no_description() {
    assert_eq!(desc(&[]), None);
    assert_eq!(desc(&["", "  "]), None);
}

#[test]
fn description_of_one_long_word_is_cut_inside_it() {
    let long = "x".repeat(100);
    let got = desc(&[&long]).unwrap();
    assert_eq!(got.chars().count(), 72);
    assert!(got.ends_with('…'));
}

#[test]
fn row_chord_joins_modifiers_and_key() {
    let r = Row {
        modifiers: vec!["Super".into(), "Shift".into()],
        key: "r".into(),
        text: "reload".into(),
        command: "reload".into(),
        origin: "t:1".into(),
        shadowed_by: None,
    };
    assert_eq!(r.chord(), "Super+Shift+r");
}

#[test]
fn sections_put_modes_after_standard() {
    let dirs = vec![
        dir("bindsym Mod4+Return exec foot", &[], &[]),
        dir("bindsym h resize shrink width 10px", &["mode \"resize\""], &[]),
        dir("bindsym Mod4+q kill", &[], &["Close the window."]),
    ];
    let b = build(&dirs, &Optimistic);
    let secs = sections(&b, &dirs, Opts { all: false, desc: true });
    let titles: Vec<&str> = secs.iter().map(|s| s.title.as_str()).collect();
    assert_eq!(titles[0], "Standard");
    assert!(titles.contains(&"resize"), "{titles:?}");
    let standard = &secs[0];
    assert_eq!(standard.rows.len(), 2);
    assert!(standard.rows.iter().any(|r| r.text == "Close the window"));
    assert!(shadow_refs_valid(&b));
}

#[test]
fn modes_come_in_order_of_first_appearance_and_each_row_once() {
    let resize = ["mode \"resize\""];
    let launch = ["mode \"launch\""];
    let dirs = vec![
        dir("bindsym a exec one", &resize, &[]),
        dir("bindsym b exec two", &launch, &[]),
        dir("bindsym c exec three", &resize, &[]),
        dir("bindsym Mod4+q kill", &[], &[]),
        dir("bindswitch lid:on exec lock", &[], &[]),
        dir("bindgesture swipe:3:left workspace next", &[], &[]),
        dir("bindsym button2 kill", &[], &[]),
    ];
    let b = build(&dirs, &Optimistic);
    let secs = sections(&b, &dirs, Opts { all: false, desc: false });
    let titles: Vec<&str> = secs.iter().map(|s| s.title.as_str()).collect();
    assert_eq!(
        titles,
        vec!["Standard", "resize", "launch", "Mouse", "Touchpad", "Switches", "Built-in"]
    );
    let texts = |i: usize| -> Vec<&str> { secs[i].rows.iter().map(|r| r.text.as_str()).collect() };
    assert_eq!(texts(0), vec!["kill"]);
    assert_eq!(texts(1), vec!["exec one", "exec three"]);
    assert_eq!(texts(2), vec!["exec two"]);
    assert_eq!(secs[3].rows[0].key, "button2");
    assert_eq!(texts(4), vec!["workspace next"]);
    assert_eq!(texts(5), vec!["exec lock"]);
    assert_eq!(secs[6].rows.len(), 1);
}
