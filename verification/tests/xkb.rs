use swaykeys::source::Directive;
use swaykeys::group::{sections, Opts};
use swaykeys::model::{build, Bucket, Resolver};
use swaykeys::xkb::{keysym_names, mark_shadowed, Keymap, Settings, XkbResolver};

fn dir(text: &str, blocks: &[&str]) -> Directive {
    Directive {
        text: text.into(),
        blocks: blocks.iter().map(|s| s.to_string()).collect(),
        file: "t".to_string(),
        line: 1,
        comment: Vec::new(),
    }
}

#[test]
fn takes_the_first_input_block_that_sets_a_layout() {
    let dirs = [
        dir("accel_profile adaptive", &["input \"type:touchpad\""]),
        dir("xkb_layout us,ru", &["input *"]),
        dir("xkb_variant altgr-intl,ruu", &["input *"]),
        dir("xkb_layout de", &["input \"1:1:other\""]),
    ];
    let s = Settings::from_directives(&dirs);
    assert_eq!(s.layout.as_deref(), Some("us,ru"));
    assert_eq!(s.variant.as_deref(), Some("altgr-intl,ruu"));
}

#[test]
fn identifier_blocks_outrank_type_blocks() {
    let dirs = [
        dir("xkb_layout de", &["input \"type:keyboard\""]),
        dir("xkb_layout us", &["input *"]),
    ];
    assert_eq!(
        Settings::from_directives(&dirs).layout.as_deref(),
        Some("us")
    );
}

#[test]
fn falls_back_to_a_type_block_when_that_is_all_there_is() {
    let dirs = [dir("xkb_layout de", &["input \"type:keyboard\""])];
    assert_eq!(
        Settings::from_directives(&dirs).layout.as_deref(),
        Some("de")
    );
}

#[test]
fn no_input_block_means_no_settings() {
    let s = Settings::from_directives(&[dir("xkb_layout de", &[])]);
    assert!(s.layout.is_none() && s.rules.is_none() && s.options.is_none());
}

#[test]
fn only_a_keysym_made_by_one_keycode_translates() {
    let mut k = Keymap::new();
    k.record(38, 97, Some("a".to_string()));
    k.record(50, 65505, Some("Shift_L".to_string()));
    k.record(62, 65505, Some("Shift_L".to_string()));
    k.record(9, 0, None);
    assert_eq!(k.code_for_sym(97), Some(38));
    assert_eq!(k.code_for_sym(65505), None);
    assert_eq!(k.code_for_sym(1), None);
    assert_eq!(k.keycode_name(38), Some("a".to_string()));
    assert_eq!(k.keycode_name(9), None);
}

fn names() -> Vec<(String, u32)> {
    vec![("a".to_string(), 97), ("Shift_L".to_string(), 65505)]
}

#[test]
fn a_keymap_resolver_goes_through_the_parsed_keysym() {
    let mut tables = Keymap::new();
    tables.record(38, 97, Some("a".to_string()));
    tables.record(50, 65505, Some("Shift_L".to_string()));
    tables.record(62, 65505, Some("Shift_L".to_string()));
    let r = XkbResolver { tables, keysyms: names() };
    assert_eq!(r.keycode_for("a"), Some(38));
    assert!(r.resolves_to_single_keycode("a"));
    assert_eq!(r.keycode_for("Shift_L"), None);
    assert_eq!(r.keycode_for("nonsense"), None);
    assert_eq!(r.keycode_name(50), Some("Shift_L".to_string()));
}

#[test]
fn to_code_goes_to_the_keycode_list_only_when_translatable() {
    let mut tables = Keymap::new();
    tables.record(38, 97, Some("a".to_string()));
    tables.record(50, 65505, Some("Shift_L".to_string()));
    tables.record(62, 65505, Some("Shift_L".to_string()));
    let r = XkbResolver { tables, keysyms: names() };
    let dirs = [
        dir("bindsym --to-code Mod4+a exec one", &[]),
        dir("bindsym --to-code Shift_L exec two", &[]),
        dir("bindcode 38 exec three", &[]),
    ];
    let b = build(&dirs, &r);
    let buckets: Vec<Bucket> = b.list.iter().map(|x| x.bucket).collect();
    assert_eq!(buckets, [Bucket::Keycode, Bucket::Keysym, Bucket::Keycode]);
    assert_eq!(b.list[2].chord, "a");
}

#[test]
fn a_keysym_binding_on_the_same_key_as_a_keycode_binding_never_fires() {
    let mut tables = Keymap::new();
    tables.record(38, 97, Some("a".to_string()));
    let r = XkbResolver { tables, keysyms: names() };
    let dirs = [
        dir("bindcode 38 exec by-code", &[]),
        dir("bindsym a exec by-sym", &[]),
    ];
    let mut b = build(&dirs, &r);
    mark_shadowed(&mut b.list, &r);
    assert_eq!(b.list[0].shadowed_by, None);
    assert_eq!(b.list[1].shadowed_by, Some(0));

    let live = sections(&b, &dirs, Opts { all: false, desc: false });
    assert!(live.iter().all(|s| !s.rows.is_empty()));
    assert!(live.iter().all(|s| s.rows.iter().all(|row| row.shadowed_by.is_none())));
    assert!(!live.iter().any(|s| s.rows.iter().any(|row| row.text == "exec by-sym")));

    let all = sections(&b, &dirs, Opts { all: true, desc: false });
    let dead: Vec<_> = all
        .iter()
        .flat_map(|s| s.rows.iter())
        .filter(|row| row.text == "exec by-sym")
        .collect();
    assert_eq!(dead.len(), 1);
    assert_eq!(dead[0].shadowed_by.as_deref(), Some("t:1"));
}

#[test]
fn every_piece_of_every_token_is_a_name_to_look_up() {
    let dirs = [dir("bindsym Mod4+Shift+a exec foo", &[]), dir("set x", &[])];
    assert_eq!(
        keysym_names(&dirs),
        ["bindsym", "Mod4", "Shift", "a", "exec", "foo", "set", "x"]
    );
}
