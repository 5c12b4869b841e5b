//! Cross-list shadowing, against a keymap table shaped like the stock `us`
//! layout.

use swaykeys::lex::logical_lines;
use swaykeys::model::{build, retain_mode, Binding, Bindings, Bucket};
use swaykeys::source::Walker;
use swaykeys::xkb::{keysym_names, mark_shadowed, Keymap, XkbResolver};

fn resolver(names: &[String]) -> XkbResolver {
    let mut tables = Keymap::new();
    for (code, sym, name) in [
        (27u32, 114u32, "r"),
        (38, 97, "a"),
        (40, 100, "d"),
        (46, 108, "l"),
        (51, 92, "backslash"),
        (53, 120, "x"),
        (107, 65377, "Print"),
        (218, 65377, "Print"),
    ] {
        tables.record(code, sym, Some(name.to_string()));
    }
    let known = [("r", 114u32), ("a", 97), ("d", 100), ("l", 108), ("backslash", 92), ("x", 120), ("Print", 65377)];
    let keysyms = names
        .iter()
        .filter_map(|n| known.iter().find(|(k, _)| k == n).map(|(_, s)| (n.clone(), *s)))
        .collect();
    XkbResolver { tables, keysyms }
}

fn load(text: &str) -> Bindings {
    let mut w = Walker::new(Vec::new());
    for line in logical_lines(text) {
        assert!(w.step("t", "t", &line).is_none());
    }
    let (dirs, _) = w.finish();
    let r = resolver(&keysym_names(&dirs));
    let mut b = build(&dirs, &r);
    mark_shadowed(&mut b.list, &r);
    b
}

const SHADOW: &str = "set $mod Mod4\n\
bindsym $mod+d exec default-menu\n\
bindsym --to-code $mod+d exec our-menu\n\
bindsym --to-code $mod+r exec code-r\n\
bindsym --release $mod+r exec on-release\n\
bindsym --input-device=1:1:kbd $mod+x exec device-specific\n\
bindsym --to-code $mod+x exec generic\n\
bindcode $mod+51 exec by-raw-code\n\
bindsym --to-code $mod+backslash exec by-name\n\
bindsym $mod+l exec lonely\n";

const UNTRANSLATABLE: &str = "bindsym Print exec theirs\nbindsym --to-code Print exec ours\n";

fn by_command<'a>(b: &'a Bindings, command: &str) -> &'a Binding {
    b.list.iter().find(|x| x.command == command).unwrap()
}

fn commands(b: &Bindings) -> Vec<&str> {
    b.list.iter().map(|x| x.command.as_str()).collect()
}

#[test]
fn to_code_shadows_the_plain_bindsym_it_never_replaced() {
    let b = load(SHADOW);
    let loser = by_command(&b, "exec default-menu");
    let winner = by_command(&b, "exec our-menu");
    assert_eq!(loser.bucket, Bucket::Keysym);
    assert_eq!(winner.bucket, Bucket::Keycode);
    assert_eq!(
        loser.shadowed_by.map(|i| b.list[i].command.as_str()),
        Some("exec our-menu")
    );
    assert_eq!(winner.shadowed_by, None);
}

#[test]
fn release_bindings_are_a_separate_lookup() {
    let b = load(SHADOW);
    assert_eq!(by_command(&b, "exec on-release").shadowed_by, None);
}

#[test]
fn device_specific_bindings_are_never_ranked() {
    let b = load(SHADOW);
    assert_eq!(by_command(&b, "exec device-specific").shadowed_by, None);
    assert_eq!(by_command(&b, "exec generic").shadowed_by, None);
}

#[test]
fn a_keycode_and_its_keysym_name_are_one_binding() {
    let b = load(SHADOW);
    assert!(!commands(&b).contains(&"exec by-raw-code"), "have: {:#?}", commands(&b));
    by_command(&b, "exec by-name");
}

#[test]
fn bindcode_is_shown_by_name() {
    let b = load(SHADOW);
    assert_eq!(by_command(&b, "exec by-name").chord, "Super+backslash");
}

#[test]
fn an_uncontested_binding_is_not_marked() {
    let b = load(SHADOW);
    assert_eq!(by_command(&b, "exec lonely").shadowed_by, None);
}

#[test]
fn to_code_that_cannot_translate_stays_a_keysym_binding() {
    let b = load(UNTRANSLATABLE);
    let print = by_command(&b, "exec ours");
    assert_eq!(print.bucket, Bucket::Keysym);
    assert!(!commands(&b).contains(&"exec theirs"), "have: {:#?}", commands(&b));
}

#[test]
fn keeping_one_mode_still_names_the_winner() {
    let text = "bindsym a exec other-mode\n\
mode \"launch\" {\n\
bindsym d exec theirs\n\
bindsym --to-code d exec ours\n\
}\n";
    let mut b = load(text);
    let loser = by_command(&b, "exec theirs");
    assert_eq!(loser.shadowed_by.map(|i| b.list[i].command.as_str()), Some("exec ours"));
    retain_mode(&mut b.list, "launch");
    assert_eq!(commands(&b), vec!["exec theirs", "exec ours"]);
    assert_eq!(b.list[0].shadowed_by, Some(1));
    assert_eq!(b.list[1].shadowed_by, None);
}
