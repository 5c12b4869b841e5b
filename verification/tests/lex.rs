use swaykeys::lex::logical_lines;

fn texts(s: &str) -> Vec<String> {
    logical_lines(s).into_iter().map(|l| l.text).collect()
}

#[test]
fn joins_continuations_verbatim() {
    // The next line is appended as-is, so its indentation survives.
    assert_eq!(
        texts("bindsym a \\\n    exec foo"),
        ["bindsym a     exec foo"]
    );
}

#[test]
fn comment_line_never_continues() {
    assert_eq!(
        texts("# note \\\nbindsym a exec foo"),
        ["bindsym a exec foo"]
    );
}

#[test]
fn trailing_hash_stays_in_the_command() {
    assert_eq!(
        texts("bindsym a exec foo # note"),
        ["bindsym a exec foo # note"]
    );
}

#[test]
fn brace_on_its_own_line_is_pulled_up() {
    assert_eq!(
        texts("mode \"resize\"\n\n{\nbindsym h resize\n}"),
        ["mode \"resize\" {", "bindsym h resize", "}",]
    );
}

#[test]
fn brace_lookahead_stops_at_a_comment() {
    let lines = texts("mode \"resize\"\n# hm\n{\n}");
    assert_eq!(lines, ["mode \"resize\"", "{", "}"]);
}

#[test]
fn comment_block_attaches_to_the_next_line() {
    let lines = logical_lines("# first\n# second\nbindsym a exec foo");
    assert_eq!(lines[0].comment, ["first", "second"]);
    assert_eq!(lines[0].line, 3);
}

#[test]
fn blank_line_detaches_the_comment() {
    let lines = logical_lines("# stray\n\nbindsym a exec foo");
    assert!(lines[0].comment.is_empty());
}

#[test]
fn lines_are_trimmed_and_never_empty() {
    let lines = logical_lines("  \r\n\tbindsym a exec foo  \r\n\n   \n");
    assert_eq!(lines.len(), 1);
    assert_eq!(lines[0].text, "bindsym a exec foo");
    assert_eq!(lines[0].line, 2);
}
