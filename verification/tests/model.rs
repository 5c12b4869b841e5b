use swaykeys::model::{build, retain_mode, Bindings, Bucket, Mods, Optimistic};
use swaykeys::source::Directive;
use swaykeys::xkb::mark_shadowed;

fn dir(text: &str) -> Directive {
    Directive {
        text: text.into(),
        blocks: Vec::new(),
        file: "t".to_string(),
        line: 1,
        comment: Vec::new(),
    }
}

fn build_from(lines: &[&str]) -> Bindings {
    let dirs: Vec<Directive> = lines.iter().map(|l| dir(l)).collect();
    build(&dirs, &Optimistic)
}

#[test]
fn modifier_aliases_collide() {
    // Ctrl and Control are the same bit, so the second overwrites.
    let b = build_from(&["bindsym Ctrl+a exec one", "bindsym Control+a exec two"]);
    assert_eq!(b.list.len(), 1);
    assert_eq!(b.list[0].command, "exec two");
}

#[test]
fn to_code_and_plain_bindsym_do_not_collide() {
    let b = build_from(&[
        "bindsym Mod4+d exec wmenu-run",
        "bindsym --to-code Mod4+d exec wofi",
    ]);
    assert_eq!(b.list.len(), 2);
}

#[test]
fn release_flag_splits_the_collision() {
    let b = build_from(&[
        "bindsym Mod4+a exec one",
        "bindsym --release Mod4+a exec two",
    ]);
    assert_eq!(b.list.len(), 2);
}

#[test]
fn unbind_only_hits_its_own_list() {
    let b = build_from(&[
        "bindsym Mod4+space exec plain",
        "bindcode 65 exec by-code",
        "unbindsym Mod4+space",
    ]);
    assert_eq!(b.list.len(), 1);
    assert_eq!(b.list[0].command, "exec by-code");
}

#[test]
fn upsert_keeps_position() {
    let b = build_from(&[
        "bindsym Mod4+a exec first",
        "bindsym Mod4+b exec second",
        "bindsym Mod4+a exec replaced",
    ]);
    assert_eq!(b.list.len(), 2);
    assert_eq!(b.list[0].command, "exec replaced");
    assert_eq!(b.list[1].command, "exec second");
}

#[test]
fn chord_order_does_not_matter() {
    let b = build_from(&[
        "bindsym Shift+Mod4+a exec one",
        "bindsym Mod4+Shift+a exec two",
    ]);
    assert_eq!(b.list.len(), 1);
}

#[test]
fn buttons_land_in_the_mouse_list() {
    let b = build_from(&["bindsym button2 kill", "bindsym BTN_LEFT nop"]);
    assert!(b.list.iter().all(|x| x.bucket == Bucket::Mouse));
}

#[test]
fn switch_and_gesture_are_separate() {
    let b = build_from(&[
        "bindswitch --reload --locked lid:on output eDP-1 disable",
        "bindgesture swipe:3:left workspace next",
    ]);
    assert_eq!(b.list.len(), 2);
    assert_eq!(b.list[0].bucket, Bucket::Switch);
    assert_eq!(b.list[1].bucket, Bucket::Gesture);
}

#[test]
fn bar_block_bindings_are_not_ours() {
    let mut d = dir("bindsym button2 kill");
    d.blocks = vec!["bar".into()];
    assert!(build(&[d], &Optimistic).list.is_empty());
}

#[test]
fn mode_comes_from_the_innermost_mode_block() {
    let mut d = dir("bindsym h resize shrink width 10px");
    d.blocks = vec!["mode \"resize\"".into()];
    assert_eq!(build(&[d], &Optimistic).list[0].mode, "resize");
}

#[test]
fn broken_binding_is_reported_not_dropped() {
    let b = build_from(&["bindsym", "bindsym Mod4+ exec x", "unbindsym Mod4+a exec x"]);
    assert!(b.list.is_empty());
    assert_eq!(b.unparsed.len(), 3);
}

#[test]
fn group_is_part_of_the_key() {
    let b = build_from(&["bindsym Group2+a exec one", "bindsym a exec two"]);
    assert_eq!(b.list.len(), 2);
    assert_eq!(b.list[0].flags.group, Some(1));
}

#[test]
fn chord_is_shown_with_pretty_modifier_names() {
    let b = build_from(&["bindsym Mod4+Shift+Return exec foot"]);
    assert_eq!(b.list[0].chord, "Super+Shift+Return");
    assert_eq!(b.list[0].modifiers, ["Super", "Shift"]);
    assert_eq!(b.list[0].origin, "t:1");
}

#[test]
fn mods_names_follow_the_mask() {
    let m = Mods(64 | 4 | 1);
    assert_eq!(m.names(), vec!["Super", "Ctrl", "Shift"]);
    assert!(Mods(0).names().is_empty());
}

#[test]
fn keeping_one_mode_drops_the_others_in_order() {
    let mut a = dir("bindsym h resize shrink width 10px");
    a.blocks = vec!["mode \"resize\"".into()];
    let mut b = build(&[dir("bindsym Mod4+a exec one"), a, dir("bindsym Mod4+b exec two")], &Optimistic);
    retain_mode(&mut b.list, "default");
    let cmds: Vec<&str> = b.list.iter().map(|x| x.command.as_str()).collect();
    assert_eq!(cmds, ["exec one", "exec two"]);
    retain_mode(&mut b.list, "resize");
    assert!(b.list.is_empty());
}

#[test]
fn without_a_keymap_nothing_is_shadowed() {
    let mut b = build_from(&["bindsym Mod4+a exec one", "bindcode 38 exec two"]);
    mark_shadowed(&mut b.list, &Optimistic);
    assert!(b.list.iter().all(|x| x.shadowed_by.is_none()));
}

#[test]
fn bindings_in_different_modes_never_collide() {
    let d1 = dir("bindsym a exec one");
    let mut d2 = dir("bindsym a exec two");
    d2.blocks = vec!["mode \"resize\"".into()];
    let b = build(&[d1, d2], &Optimistic);
    assert_eq!(b.list.len(), 2);
    assert_eq!(b.list[0].mode, "default");
    assert_eq!(b.list[0].command, "exec one");
    assert_eq!(b.list[1].mode, "resize");
}

#[test]
fn exclude_titlebar_keeps_a_mouse_binding_off_the_titlebar() {
    let b = build_from(&["bindsym --border --exclude-titlebar button1 nop"]);
    assert_eq!(b.list[0].bucket, Bucket::Mouse);
    assert!(b.list[0].flags.border);
    assert!(!b.list[0].flags.titlebar);
    let c = build_from(&["bindsym --border button1 nop"]);
    assert!(c.list[0].flags.titlebar);
}

#[test]
fn names_are_the_low_eight_bits() {
    assert_eq!(Mods(65).names(), vec!["Super", "Shift"]);
    assert_eq!(Mods(65).names(), Mods(65 | 256).names());
    assert_ne!(Mods(65).names(), Mods(64).names());
    assert_eq!(Mods(0).names(), Vec::<&str>::new());
}

#[test]
fn the_list_is_chosen_mouse_first_then_code_then_sym() {
    let b = build_from(&[
        "bindsym button kill",
        "bindsym buttonx kill",
        "bindsym button12 kill",
        "bindsym --border a kill",
        "bindcode 38 kill",
        "bindsym --to-code b kill",
        "bindsym c kill",
    ]);
    let buckets: Vec<Bucket> = b.list.iter().map(|x| x.bucket).collect();
    assert_eq!(
        buckets,
        vec![
            Bucket::Keysym,
            Bucket::Keysym,
            Bucket::Mouse,
            Bucket::Mouse,
            Bucket::Keycode,
            Bucket::Keycode,
            Bucket::Keysym,
        ]
    );
}

#[test]
fn the_last_input_device_flag_names_the_device_unquoted() {
    let b = build_from(&[
        "bindsym --input-device=1:1:kbd --input-device=\"2:2:pad\" a exec one",
        "bindsym b exec two",
    ]);
    assert_eq!(b.list[0].flags.input, "2:2:pad");
    assert_eq!(b.list[1].flags.input, "*");
}
