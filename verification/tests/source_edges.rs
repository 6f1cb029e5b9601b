use code_steps::source::{
    can_dedent, collapse_continuations, dedent, restore_newlines, step_display,
    step_display_checked, strip_comments, strip_ignores, strip_nested_steps, strip_waits,
};

#[test]
fn comments_unterminated_and_at_end() {
    assert_eq!(strip_comments("a /* b"), "a ");
    assert_eq!(strip_comments("a // b"), "a ");
    assert_eq!(strip_comments("a /* x\ny */ b"), "a  b");
    assert_eq!(strip_comments("/*/ x"), "");
    assert_eq!(strip_comments("a / b * c"), "a / b * c");
}

#[test]
fn comments_keep_line_count_bounded() {
    let src = "x // one\ny /* two\nthree */ z\n";
    let out = strip_comments(src);
    assert_eq!(out, "x \ny  z\n");
    assert!(out.matches('\n').count() <= src.matches('\n').count());
}

#[test]
fn ignores_without_tags_or_parens() {
    assert_eq!(strip_ignores("ignore![() { x(); }];"), "// (ignored)");
    assert_eq!(strip_ignores("ignore![{ x(); }] after"), "// (ignored)after");
    assert_eq!(strip_ignores("    a; ignore![(\"t\") { b(); }];\nc"), "    a; // (ignored t)\nc");
}

#[test]
fn ignores_keep_code_before_the_call() {
    let out = strip_ignores("let a = 1; ignore![(\"s\") { b(); }];");
    assert_eq!(out, "let a = 1; // (ignored s)");
    assert_eq!(strip_ignores("x = code_steps::ignore![{ y(); }];"), "x = // (ignored)");
    assert_eq!(strip_ignores("  crate::ignore![(\"k\") { y(); }];"), "  // (ignored k)");
}

#[test]
fn ignores_marker_needs_following_text() {
    assert_eq!(strip_ignores("ignore!["), "ignore![");
    assert_eq!(strip_ignores("plain text"), "plain text");
}

#[test]
fn nested_steps_edges() {
    assert_eq!(strip_nested_steps("step![]"), "// (nested step)\n");
    assert_eq!(strip_nested_steps("step!["), "step![");
    assert_eq!(
        strip_nested_steps("step![\"a \\\"q\\\"\", { s(\"}\"); c(']'); }]; x"),
        "// a \"q\"\n x"
    );
}

#[test]
fn waits_edges() {
    assert_eq!(strip_waits("wait![ x"), "x");
    assert_eq!(strip_waits("a wait![\"]\"] ;b"), "a b");
    assert_eq!(strip_waits("no pause here"), "no pause here");
}

#[test]
fn newlines_edges() {
    assert_eq!(restore_newlines("a;  b"), "a;\nb");
    assert_eq!(restore_newlines("a; }"), "a; }");
    assert_eq!(restore_newlines("a;   \nb"), "a;   \nb");
    assert_eq!(restore_newlines("a;"), "a;");
}

#[test]
fn collapse_edges() {
    assert_eq!(collapse_continuations("a\n\n  b;"), "a \n  b;\n");
    assert_eq!(collapse_continuations("f(x,  \n y) {\n}"), "f(x,  y) {\n}\n");
    assert_eq!(collapse_continuations(""), "");
}

#[test]
fn dedent_tabs_and_wide_whitespace() {
    assert_eq!(dedent("\tx\n\t\ty"), "x\n\ty\n");
    assert_eq!(dedent("\u{3000}x"), "x\n");
    assert_eq!(dedent("    a\n      b\n"), "a\n  b\n");
}

#[test]
fn dedent_refuses_cut_inside_character() {
    assert!(!can_dedent("\u{3000}x\n  y"));
    assert!(can_dedent("  a\n    b"));
    assert!(can_dedent(""));
}

#[test]
fn step_display_from_token_text() {
    let raw = "\"Load\" , { let x = 1 ; let y = 2 ; }";
    assert_eq!(step_display(raw), "let x = 1 ;\nlet y = 2 ; \n");
    assert_eq!(
        step_display_checked(raw),
        Some("let x = 1 ;\nlet y = 2 ; \n".to_string())
    );
}

#[test]
fn step_display_hides_helpers() {
    let raw = "\"S\" , { a () ; ignore![(\"t\") { b () ; }] ; step![\"Inner\" , { c () ; }] ; }";
    let out = step_display(raw);
    assert!(out.contains("a () ;"), "got: {out:?}");
    assert!(!out.contains("b ()"), "got: {out:?}");
    assert!(!out.contains("c ()"), "got: {out:?}");
}

#[test]
fn step_display_strips_waits() {
    let raw = "\"S\" , { let a = 1 ; wait![\"msg\"] ; let b = 2 ; }";
    let out = step_display(raw);
    assert!(out.contains("let a") && out.contains("let b"), "got: {out:?}");
    assert!(!out.contains("wait!"), "got: {out:?}");
    assert_eq!(out, "let a = 1 ;\n\nlet b = 2 ; \n");
}

#[test]
fn step_display_checked_refuses_missing_block() {
    assert_eq!(step_display_checked("\"S\""), None);
    assert_eq!(step_display_checked("} {"), None);
    assert_eq!(step_display_checked("{\u{3000}x\n  y}"), None);
}
