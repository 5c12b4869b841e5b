use swaykeys::lex::logical_lines;
use swaykeys::source::{
    choose_root, classifiable, classify, include_target, ipc_reply_len, ipc_request, join_path, mark_seen,
    mismatch_warning, missing_include, reply_len, search_path, shell_expand, shorten_home, unquote, Directive,
    IncludeTarget, Kind, Walker,
};

fn kind(s: &str) -> &'static str {
    match classify(s) {
        Kind::BlockOpen(_) => "open",
        Kind::BlockClose => "close",
        Kind::Command => "command",
    }
}

#[test]
fn block_needs_the_brace_as_its_own_token() {
    assert_eq!(kind("mode \"resize\" {"), "open");
    assert_eq!(kind("mode \"resize\"{"), "command");
    assert_eq!(kind("}"), "close");
    assert_eq!(kind("{"), "command");
    assert_eq!(kind("bindsym $mod+a exec foo"), "command");
}

#[test]
fn unquotes_one_layer() {
    assert_eq!(unquote("\"foo bar\""), "foo bar");
    assert_eq!(unquote("'foo'"), "foo");
    assert_eq!(unquote("foo"), "foo");
    assert_eq!(unquote("\"unbalanced"), "\"unbalanced");
}

#[test]
fn block_header_keeps_its_text() {
    match classify("mode \"resize\"   {") {
        Kind::BlockOpen(h) => assert_eq!(h, "mode \"resize\""),
        _ => panic!("not a block"),
    }
    assert!(classifiable("mode \"resize\" {"));
    assert!(classifiable("exec foo\u{3000}"));
    assert!(!classifiable("mode x {\u{3000}"));
}

fn walk(text: &str) -> (Vec<Directive>, Vec<String>, Vec<String>) {
    let mut w = Walker::new(Vec::new());
    let mut includes = Vec::new();
    for line in logical_lines(text) {
        if let Some(p) = w.step("cfg", "~/cfg", &line) {
            includes.push(p);
        }
    }
    let (out, warnings) = w.finish();
    (out, warnings, includes)
}

#[test]
fn walk_tracks_blocks_variables_and_includes() {
    let (out, warnings, includes) = walk(
        "set $mod Mod4\nset $term \"foot\"\nmode \"resize\" {\n  bindsym $mod+h resize\n}\nbindsym $mod+Return exec $term\ninclude '$HOME/x/*'\n}\n",
    );
    assert_eq!(out.len(), 2);
    assert_eq!(out[0].text, "bindsym Mod4+h resize");
    assert_eq!(out[0].blocks, ["mode \"resize\""]);
    assert_eq!(out[1].text, "bindsym Mod4+Return exec foot");
    assert!(out[1].blocks.is_empty());
    assert_eq!(out[1].file, "~/cfg");
    assert_eq!(out[1].line, 6);
    assert_eq!(out[1].origin(), "~/cfg:6");
    assert_eq!(includes, ["'$HOME/x/*'"]);
    assert_eq!(warnings, ["cfg:8: unmatched '}'"]);
}

#[test]
fn set_captures_its_value_when_defined() {
    let (out, _, _) = walk("set $a one\nset $b $a\nset $a two\nexec $b $a\n");
    assert_eq!(out[0].text, "exec one two");
}

#[test]
fn include_paths_resolve_against_the_parent() {
    let env = vec![("XDG".to_string(), "/xdg".to_string())];
    match include_target("/etc/sway", "'config.d/*'", "cfg", 3, Some("/home/u"), &env) {
        IncludeTarget::Path(p) => assert_eq!(p, "/etc/sway/config.d/*"),
        IncludeTarget::Refused(m) => panic!("{m}"),
    }
    match include_target("/etc/sway", "~/a", "cfg", 3, Some("/home/u"), &env) {
        IncludeTarget::Path(p) => assert_eq!(p, "/home/u/a"),
        IncludeTarget::Refused(m) => panic!("{m}"),
    }
    match include_target("/etc/sway", "${XDG}/b $NOPE", "cfg", 3, None, &env) {
        IncludeTarget::Path(p) => assert_eq!(p, "/xdg/b "),
        IncludeTarget::Refused(m) => panic!("{m}"),
    }
    match include_target("/etc/sway", "$(rm -rf ~)", "cfg", 3, None, &env) {
        IncludeTarget::Refused(m) => assert_eq!(
            m,
            "cfg:3: refusing to run command substitution in an include path: $(rm -rf ~)"
        ),
        IncludeTarget::Path(p) => panic!("{p}"),
    }
}

#[test]
fn shell_expand_leaves_a_bare_dollar() {
    let env = vec![("A".to_string(), "x".to_string())];
    assert_eq!(shell_expand("$ $A$", None, &env), "$ x$");
    assert_eq!(shell_expand("~/f", None, &env), "~/f");
    assert_eq!(join_path("dir", "f"), "dir/f");
    assert_eq!(join_path("dir/", "/abs"), "/abs");
}

#[test]
fn a_missing_plain_include_is_reported_and_a_glob_is_not() {
    assert_eq!(
        missing_include("/x/y", "cfg", 2),
        Some("cfg:2: include not found: /x/y".to_string())
    );
    assert_eq!(missing_include("/x/*", "cfg", 2), None);
}

#[test]
fn home_is_shortened_to_a_tilde() {
    assert_eq!(shorten_home("/home/u/.config/sway/config", Some("/home/u")), "~/.config/sway/config");
    assert_eq!(shorten_home("/etc/sway/config", Some("/home/u")), "/etc/sway/config");
    assert_eq!(shorten_home("/etc/sway/config", Some("")), "/etc/sway/config");
}

#[test]
fn a_path_is_walked_once() {
    let mut seen = Vec::new();
    assert!(mark_seen(&mut seen, b"/a".to_vec()));
    assert!(mark_seen(&mut seen, b"/b".to_vec()));
    assert!(!mark_seen(&mut seen, b"/a".to_vec()));
    // Paths that differ only in bytes that are not UTF-8 stay apart.
    assert!(mark_seen(&mut seen, b"/c\xff".to_vec()));
    assert!(mark_seen(&mut seen, b"/c\xfe".to_vec()));
    assert_eq!(seen, [b"/a".to_vec(), b"/b".to_vec(), b"/c\xff".to_vec(), b"/c\xfe".to_vec()]);
}

#[test]
fn a_differing_running_config_is_reported() {
    assert_eq!(mismatch_warning("p", "same", "same"), None);
    assert_eq!(
        mismatch_warning("p", "disk", "ipc"),
        Some("running sway loaded a config that differs from p; using the running one, resolving includes from that directory".to_string())
    );
}

#[test]
fn ipc_frames_are_checked() {
    let req = ipc_request();
    assert_eq!(&req[..6], b"i3-ipc");
    assert_eq!(&req[6..10], &[0, 0, 0, 0]);
    assert_eq!(&req[10..], &9u32.to_ne_bytes());

    let mut header = Vec::from(&b"i3-ipc"[..]);
    header.extend_from_slice(&42u32.to_ne_bytes());
    header.extend_from_slice(&9u32.to_ne_bytes());
    assert_eq!(ipc_reply_len(&header), Some(42));

    let mut big = Vec::from(&b"i3-ipc"[..]);
    big.extend_from_slice(&(65u32 << 20).to_ne_bytes());
    big.extend_from_slice(&9u32.to_ne_bytes());
    assert_eq!(ipc_reply_len(&big), None);

    let mut bad = header.clone();
    bad[0] = b'x';
    assert_eq!(ipc_reply_len(&bad), None);
}

#[test]
fn the_search_path_follows_sway() {
    assert_eq!(
        search_path(Some("/home/u"), None),
        [
            "/home/u/.sway/config",
            "/home/u/.config/sway/config",
            "/home/u/.i3/config",
            "/home/u/.config/i3/config",
            "/etc/sway/config",
            "/etc/i3/config",
        ]
    );
    assert_eq!(
        search_path(Some("/home/u"), Some("/x/")),
        [
            "/home/u/.sway/config",
            "/x/sway/config",
            "/home/u/.i3/config",
            "/x/i3/config",
            "/etc/sway/config",
            "/etc/i3/config",
        ]
    );
    assert_eq!(search_path(None, Some("")), ["/etc/sway/config", "/etc/i3/config"]);
}

#[test]
fn a_reply_length_is_bounded() {
    assert_eq!(reply_len(0), Some(0));
    assert_eq!(reply_len(64 << 20), Some(64 << 20));
    assert_eq!(reply_len((64 << 20) + 1), None);
}

#[test]
fn non_ascii_paths_pass_through_expansion() {
    assert_eq!(
        shell_expand("~/.config/sway/конфиг", Some("/home/u"), &Vec::new()),
        "/home/u/.config/sway/конфиг"
    );
    let env = vec![("D".to_string(), "déjà".to_string())];
    assert_eq!(shell_expand("ü/$D/ß", None, &env), "ü/déjà/ß");
}

#[test]
fn the_running_config_wins_and_a_missing_one_is_explained() {
    let path = "/home/u/.config/sway/config".to_string();
    // The running sway's text is walked; a differing file is reported.
    let (root, text, warning) = choose_root(
        Some((path.clone(), Ok("bindsym a kill\n".to_string()))),
        Some("bindsym b kill\n".to_string()),
    )
    .unwrap();
    assert_eq!(root.as_deref(), Some(path.as_str()));
    assert_eq!(text, "bindsym b kill\n");
    assert!(warning.unwrap().contains(&path));
    // The same text raises nothing.
    let (_, _, warning) = choose_root(
        Some((path.clone(), Ok("x\n".to_string()))),
        Some("x\n".to_string()),
    )
    .unwrap();
    assert_eq!(warning, None);
    // Without sway the file is the text, and a read error names it.
    let (root, text, warning) =
        choose_root(Some((path.clone(), Ok("y\n".to_string()))), None).unwrap();
    assert_eq!((root.as_deref(), text.as_str(), warning), (Some(path.as_str()), "y\n", None));
    assert_eq!(
        choose_root(Some((path.clone(), Err("denied".to_string()))), None),
        Err(format!("{path}: denied"))
    );
    // Without a file, sway's text is walked with a warning.
    let (root, text, warning) = choose_root(None, Some("z\n".to_string())).unwrap();
    assert_eq!((root, text.as_str()), (None, "z\n"));
    assert!(warning.unwrap().contains("relative includes cannot be resolved"));
    assert_eq!(
        choose_root(None, None),
        Err("no sway config found and sway is not running (try --config PATH)".to_string())
    );
}
