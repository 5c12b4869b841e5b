use ratatui::style::Color;
use swaykeys::theme::{modifier, Colour};

#[test]
fn every_modifier_gets_its_own_colour() {
    let named = ["Super", "Ctrl", "Alt", "Shift"];
    let mut seen: Vec<Colour> = named.iter().map(|m| modifier(m)).collect();
    seen.sort_by_key(|c| c.ansi());
    seen.dedup();
    assert_eq!(seen.len(), named.len(), "two modifiers share a colour");
}

#[test]
fn red_is_not_spent_on_a_modifier() {
    let used: Vec<Colour> = ["Super", "Ctrl", "Alt", "Shift", "Mod3"]
        .iter()
        .map(|m| modifier(m))
        .collect();
    assert!(!used.contains(&Colour::Red));
}

#[test]
fn the_two_encodings_agree() {
    for (colour, expected) in [
        (Colour::Magenta, Color::Magenta),
        (Colour::Yellow, Color::Yellow),
        (Colour::Cyan, Color::Cyan),
        (Colour::Green, Color::Green),
        (Colour::Blue, Color::Blue),
        (Colour::Red, Color::Red),
    ] {
        assert_eq!(colour.ratatui(), expected);
        assert!(colour.ansi().starts_with("\x1b[3"), "{colour:?}");
    }
}

#[test]
fn the_palette_is_exact() {
    assert_eq!(modifier("Super"), Colour::Magenta);
    assert_eq!(modifier("Ctrl"), Colour::Yellow);
    assert_eq!(modifier("Alt"), Colour::Cyan);
    assert_eq!(modifier("Shift"), Colour::Green);
    assert_eq!(modifier("Mod5"), Colour::Blue);
    assert_eq!(Colour::Red.ansi(), "\x1b[31m");
    assert_eq!(Colour::Magenta.ansi(), "\x1b[35m");
}
