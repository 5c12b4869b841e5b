use swaykeys::vars::Vars;

fn vars(pairs: &[(&str, &str)]) -> Vars {
    let mut v = Vars::default();
    for (n, val) in pairs {
        v.set(n, val.to_string());
    }
    v
}

#[test]
fn substitutes_without_word_boundaries() {
    let v = vars(&[("$mod", "Mod4")]);
    assert_eq!(
        v.expand("bindsym $mod+Shift+r reload"),
        "bindsym Mod4+Shift+r reload"
    );
}

#[test]
fn longest_name_wins() {
    let v = vars(&[("$mod", "Mod4"), ("$mode2", "Mod1")]);
    assert_eq!(v.expand("$mode2"), "Mod1");
    assert_eq!(v.expand("$mod"), "Mod4");
}

#[test]
fn does_not_rescan_substituted_text() {
    let v = vars(&[("$a", "$b"), ("$b", "boom")]);
    assert_eq!(v.expand("$a"), "$b");
}

#[test]
fn redefinition_replaces_in_place() {
    let mut v = vars(&[("$term", "foot")]);
    v.set("$term", "alacritty".into());
    assert_eq!(v.expand("exec $term"), "exec alacritty");
}

#[test]
fn escapes() {
    let v = vars(&[("$mod", "Mod4")]);
    assert_eq!(v.expand(r"\$mod"), r"\$mod");
    assert_eq!(v.expand("$$mod"), "$mod");
    assert_eq!(v.expand(r"\\$mod"), r"\\Mod4");
}

#[test]
fn unknown_variable_is_left_alone() {
    let v = vars(&[("$mod", "Mod4")]);
    assert_eq!(v.expand("$menu and $mod"), "$menu and Mod4");
}

#[test]
fn a_set_name_is_looked_up_after_setting() {
    let v = vars(&[("$x", "1"), ("$y", "2"), ("$x", "3")]);
    assert_eq!(v.expand("$x$y"), "32");
}

#[test]
fn two_different_names_set_in_either_order_expand_alike() {
    let a = vars(&[("$mod", "Mod4"), ("$mode2", "Mod1")]);
    let b = vars(&[("$mode2", "Mod1"), ("$mod", "Mod4")]);
    for s in ["$mode2 $mod", "$mod2", "$modx", "bindsym $mod+$mode2 x", "$$mod"] {
        assert_eq!(a.expand(s), b.expand(s), "{s}");
    }
}
