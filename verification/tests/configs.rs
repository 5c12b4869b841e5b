//! Whole configs read the way sway reads them: lines, blocks, variables,
//! includes, then bindings.

use swaykeys::lex::logical_lines;
use swaykeys::model::{build, Binding, Bindings, Bucket, Optimistic};
use swaykeys::source::{include_target, mark_seen, IncludeTarget, Walker};

/// The files of a config, by absolute path.
type Files = &'static [(&'static str, &'static str)];

fn glob_match(pattern: &str, path: &str) -> bool {
    match pattern.split_once('*') {
        Some((pre, post)) => path.starts_with(pre) && path.ends_with(post) && path.len() >= pre.len() + post.len(),
        None => pattern == path,
    }
}

fn walk(files: Files, w: &mut Walker, seen: &mut Vec<Vec<u8>>, path: &str) {
    let text = files.iter().find(|(p, _)| *p == path).map(|(_, t)| *t).unwrap();
    let dir = &path[..path.rfind('/').unwrap()];
    for line in logical_lines(text) {
        if let Some(pattern) = w.step(path, path, &line) {
            match include_target(dir, &pattern, path, line.line, None, &Vec::new()) {
                IncludeTarget::Refused(m) => w.warn(m),
                IncludeTarget::Path(joined) => {
                    let mut matched: Vec<&str> =
                        files.iter().map(|(p, _)| *p).filter(|p| glob_match(&joined, p)).collect();
                    matched.sort();
                    for m in matched {
                        if mark_seen(seen, m.as_bytes().to_vec()) {
                            walk(files, w, seen, m);
                        }
                    }
                }
            }
        }
    }
}

fn load_files(files: Files, root: &str) -> Bindings {
    let mut w = Walker::new(Vec::new());
    let mut seen = Vec::new();
    mark_seen(&mut seen, root.as_bytes().to_vec());
    walk(files, &mut w, &mut seen, root);
    let (dirs, _) = w.finish();
    build(&dirs, &Optimistic)
}

fn load(name: &'static str, text: &'static str) -> Bindings {
    let path: &'static str = Box::leak(format!("/fx/{name}").into_boxed_str());
    let files: Files = Box::leak(Box::new([(path, text)]));
    load_files(files, path)
}

fn commands(b: &Bindings) -> Vec<&str> {
    b.list.iter().map(|x| x.command.as_str()).collect()
}

fn find<'a>(b: &'a Bindings, chord: &str) -> Vec<&'a Binding> {
    b.list.iter().filter(|x| x.chord == chord).collect()
}

const INCLUDE: Files = &[
    (
        "/fx/include.config",
        "set $mod Mod4\nbindsym $mod+r exec from-root\ninclude sub/nested.conf\ninclude glob/*.conf\ninclude /fx/include.config\n",
    ),
    ("/fx/sub/nested.conf", "bindsym $mod+n exec from-nested\ninclude /fx/include.config\n"),
    ("/fx/glob/a.conf", "bindsym $mod+a exec from-glob-a\n"),
    ("/fx/glob/b.conf", "bindsym $mod+b exec from-glob-b\n"),
];

const VARS: &str = "set $mod Mod4\nset $mod2 Mod1\nset $term foot\nset $indirect $term\n\
bindsym $mod2+t exec $term\nbindsym $mod+i exec $indirect\nset $term alacritty\n\
bindsym $mod+t exec $term\nbindsym $mod+u exec $nosuchvar\nbindsym $mod+d exec echo $$mod\n";

const MODES: &str = "mode \"resize\" {\n    bindsym h resize shrink width 10px\n    input * {\n        xkb_layout us\n    }\n    bindsym Escape mode default\n}\n\
mode \"passthrough\"\n\n{\n    bindsym Mod4+Pause mode default\n}\nbar {\n    bindsym button2 kill\n}\nbindsym Mod4+q kill\n";

const CONTINUATION: &str = "bindsym Mod4+e exec swaynag -t warning \\\n    -m 'really exit?'\n# a comment \\\nbindsym Mod4+c exec after-comment\n";

const UNBIND: &str = "bindsym Mod4+space exec plain\nbindcode 65 exec by-keycode\nbindsym --to-code Mod4+f exec fullscreen\nunbindsym Mod4+space\nunbindsym Mod4+f\n";

const GARBAGE: &str = "bindsym Mod4+g exec good\nbindsym\nbindsym Mod4+ exec x\nbindsym --release\nunbindsym Mod4+a exec x\nbindsym Mod4+h exec also-good\n";

#[test]
fn includes_are_followed_and_cycles_terminate() {
    let b = load_files(INCLUDE, "/fx/include.config");
    let mut got = commands(&b);
    got.sort_unstable();
    assert_eq!(
        got,
        ["exec from-glob-a", "exec from-glob-b", "exec from-nested", "exec from-root"]
    );
}

#[test]
fn variables_carry_across_include_boundaries() {
    let b = load_files(INCLUDE, "/fx/include.config");
    assert_eq!(find(&b, "Super+n")[0].command, "exec from-nested");
}

#[test]
fn longest_variable_name_wins() {
    let b = load("vars.config", VARS);
    assert_eq!(find(&b, "Alt+t")[0].command, "exec foot");
}

#[test]
fn values_are_captured_at_definition_time() {
    let b = load("vars.config", VARS);
    assert_eq!(find(&b, "Super+i")[0].command, "exec foot");
}

#[test]
fn redefinition_applies_from_that_point_on() {
    let b = load("vars.config", VARS);
    assert_eq!(find(&b, "Super+t")[0].command, "exec alacritty");
}

#[test]
fn unknown_variables_are_left_alone() {
    let b = load("vars.config", VARS);
    assert_eq!(find(&b, "Super+u")[0].command, "exec $nosuchvar");
}

#[test]
fn double_dollar_is_a_literal() {
    let b = load("vars.config", VARS);
    assert_eq!(find(&b, "Super+d")[0].command, "exec echo $mod");
}

#[test]
fn a_nested_block_does_not_end_the_mode() {
    let b = load("modes.config", MODES);
    assert_eq!(find(&b, "Escape")[0].mode, "resize");
}

#[test]
fn brace_on_its_own_line_opens_the_mode() {
    let b = load("modes.config", MODES);
    assert_eq!(find(&b, "Super+Pause")[0].mode, "passthrough");
}

#[test]
fn bar_bindings_are_not_key_bindings() {
    let b = load("modes.config", MODES);
    assert!(find(&b, "button2").is_empty());
}

#[test]
fn mode_ends_at_its_closing_brace() {
    let b = load("modes.config", MODES);
    assert_eq!(find(&b, "Super+q")[0].mode, "default");
}

#[test]
fn continuations_keep_the_whole_command() {
    let b = load("continuation.config", CONTINUATION);
    let exit = find(&b, "Super+e");
    assert!(exit[0].command.ends_with("really exit?'"), "got: {}", exit[0].command);
    assert!(exit[0].command.contains("-t warning"));
}

#[test]
fn a_comment_never_continues() {
    let b = load("continuation.config", CONTINUATION);
    assert_eq!(find(&b, "Super+c")[0].command, "exec after-comment");
}

#[test]
fn unbind_only_reaches_its_own_list() {
    let b = load("unbind.config", UNBIND);
    assert!(find(&b, "Super+space").is_empty());
    assert_eq!(find(&b, "65")[0].command, "exec by-keycode");
    let f = find(&b, "Super+f");
    assert_eq!(f.len(), 1);
    assert_eq!(f[0].bucket, Bucket::Keycode);
}

#[test]
fn broken_bindings_are_reported_not_dropped() {
    let b = load("garbage.config", GARBAGE);
    assert_eq!(commands(&b), ["exec good", "exec also-good"]);
    assert_eq!(b.unparsed.len(), 4, "got: {:#?}", b.unparsed);
    assert!(b
        .unparsed
        .iter()
        .all(|u| u.starts_with("UNPARSED ") && u.contains("garbage.config:")));
}

#[test]
fn each_mode_keeps_its_own_lists() {
    let b = load(
        "m.config",
        "bindsym a exec one\nmode \"resize\" {\n  bindsym a exec two\n}\n",
    );
    assert_eq!(b.list.len(), 2);
    assert_eq!(b.list[0].mode, "default");
    assert_eq!(b.list[0].command, "exec one");
    assert_eq!(b.list[1].mode, "resize");
}
