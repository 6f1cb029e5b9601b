use code_steps::source::{
    collapse_continuations, dedent, restore_newlines, strip_comments, strip_ignores,
    strip_nested_steps, strip_waits,
};

fn visible(s: &str) -> String {
    s.chars().filter(|c| !c.is_whitespace()).collect()
}

fn squeezed(s: &str) -> String {
    s.chars().filter(|c| *c != ' ' && *c != '\n').collect()
}

#[test]
fn plain_code_passes_every_stage() {
    let code = "let total = a + b * c;\nprint(total);\n";
    assert_eq!(strip_comments(code), code);
    assert_eq!(strip_ignores(code), code);
    assert_eq!(strip_nested_steps(code), code);
    assert_eq!(strip_waits(code), code);
    assert_eq!(restore_newlines("a + b\nc"), "a + b\nc");
}

#[test]
fn restore_newlines_moves_only_whitespace() {
    let src = "let a = 1;   let b = 2;  }  x;y";
    let out = restore_newlines(src);
    assert_eq!(out, "let a = 1;\nlet b = 2;  }  x;\ny");
    assert_eq!(squeezed(&out), squeezed(src));
}

#[test]
fn collapse_moves_only_whitespace() {
    let src = "call(\n   a,\n   b\n);\r\n\n  if x {\n";
    let out = collapse_continuations(src);
    assert_eq!(out, "call(    a,    b );\n\n  if x {\n");
    assert_eq!(visible(&out), visible(src));
}

#[test]
fn dedent_keeps_relative_indentation() {
    let out = dedent("      fn f() {\n          g();\n\n      }");
    assert_eq!(out, "fn f() {\n    g();\n\n}\n");
}

#[test]
fn comments_never_add_lines() {
    let src = "a /* x\n y\n */ b // c\nd";
    let out = strip_comments(src);
    assert_eq!(out, "a  b \nd");
    assert!(out.matches('\n').count() <= src.matches('\n').count());
}

#[test]
fn strip_comments_twice_changes_nothing() {
    let src = "a // b\n/* c */ d /* e";
    let once = strip_comments(src);
    assert_eq!(once, "a \n d ");
    assert_eq!(strip_comments(&once), once);
    assert!(!once.contains("//") && !once.contains("/*"));
}

#[test]
fn strip_comments_keeps_line_endings() {
    let src = "x // one\ny // two\nz";
    let out = strip_comments(src);
    assert_eq!(out.matches('\n').count(), src.matches('\n').count());
}

#[test]
fn restore_newlines_twice_changes_nothing() {
    let src = "a; b;  c; }  d;";
    let once = restore_newlines(src);
    assert_eq!(once, "a;\nb;\nc; }  d;");
    assert_eq!(restore_newlines(&once), once);
}

#[test]
fn strip_waits_keeps_text_before_first_call() {
    let src = "let a = 1; wait![\"x\"]; b();";
    let out = strip_waits(src);
    assert!(out.starts_with("let a = 1; "));
    assert_eq!(out, "let a = 1;  b();");
}

#[test]
fn ascii_whitespace_always_dedents() {
    assert_eq!(dedent("\t  a\n\t    b\n \n"), "a\n  b\n\n");
    let out = dedent("    x\n      y");
    assert!(out.lines().any(|l| l.starts_with('x')));
}
