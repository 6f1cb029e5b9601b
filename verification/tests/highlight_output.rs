use code_steps::display::{enter_step, StepPath};
use code_steps::highlight::{
    fast_forward, highlight_code, render_code, render_line, split_with_endings,
    typewriter_chars, typewriter_step, HighlightError, Span, TypewriterAction,
};
use syntect::highlighting::ThemeSet;
use syntect::parsing::SyntaxSet;

fn strip_escapes(s: &str) -> String {
    let mut out = String::new();
    let mut chars = s.chars().peekable();
    while let Some(c) = chars.next() {
        if c == '\x1b' {
            for d in chars.by_ref() {
                if d == 'm' {
                    break;
                }
            }
        } else {
            out.push(c);
        }
    }
    out
}

fn span(fg: [u8; 4], bg: [u8; 4], text: &str) -> Span {
    Span { foreground: fg, background: bg, font: 0, text: text.to_string() }
}

#[test]
fn lines_keep_their_endings() {
    let v: Vec<char> = "a\nbc\n\nd".chars().collect();
    let pieces: Vec<String> = split_with_endings(&v).iter().map(|p| p.iter().collect()).collect();
    assert_eq!(pieces, vec!["a\n", "bc\n", "\n", "d"]);
}

#[test]
fn rust_code_is_highlighted() {
    let ss = SyntaxSet::load_defaults_newlines();
    let ts = ThemeSet::load_defaults();
    let theme = &ts.themes["base16-ocean.dark"];
    let code = "let x = 1;\nfoo(x);\n";
    let lines = match highlight_code(code, &ss, theme) {
        Ok(l) => l,
        Err(_) => panic!("highlighting failed"),
    };
    assert_eq!(lines.len(), 2);
    let first: String = lines[0].iter().map(|s| s.text.as_str()).collect();
    assert_eq!(first, "let x = 1;\n");
    assert!(lines[0].len() > 1);
    let path = StepPath::new();
    let shown = render_line(&path, &lines[0]);
    assert!(shown.starts_with("   \x1b[38;2;"), "got: {shown:?}");
    assert_eq!(strip_escapes(&shown), "   let x = 1;\n");
    assert_eq!(shown, format!("   {}", fast_forward(&lines[0], 0)));
}

#[test]
fn escape_uses_decimal_colors() {
    let path = StepPath::new();
    let line = vec![span([1, 2, 3, 255], [0, 0, 0, 255], "a")];
    assert_eq!(render_line(&path, &line), "   \x1b[38;2;1;2;3ma");
}

#[test]
fn escape_blends_translucent_foreground() {
    let mut path = StepPath::new();
    let _ = enter_step(&mut path, "a");
    let _ = enter_step(&mut path, "b");
    let line = vec![span([255, 0, 0, 128], [0, 0, 255, 255], "z")];
    assert_eq!(render_line(&path, &line), "      \x1b[38;2;128;0;127mz");
}

#[test]
fn typewriter_pieces_and_fast_forward() {
    let fg = [10, 20, 30, 255];
    let bg = [0, 0, 0, 255];
    let line = vec![span(fg, bg, "ab"), span(fg, bg, ""), span([1, 1, 1, 255], bg, "c")];
    let pieces = typewriter_chars(&line);
    assert_eq!(
        pieces,
        vec![
            "\x1b[38;2;10;20;30ma".to_string(),
            "\x1b[38;2;10;20;30mb".to_string(),
            "\x1b[38;2;1;1;1mc".to_string(),
        ]
    );
    assert_eq!(
        fast_forward(&line, 1),
        "\x1b[38;2;10;20;30mb\x1b[38;2;10;20;30m\x1b[38;2;1;1;1mc"
    );
    assert_eq!(fast_forward(&line, 2), "\x1b[38;2;1;1;1mc");
}

#[test]
fn highlighting_needs_rust_syntax() {
    let ss = SyntaxSet::new();
    let ts = ThemeSet::load_defaults();
    let theme = &ts.themes["base16-ocean.dark"];
    assert!(matches!(highlight_code("let x = 1;", &ss, theme), Err(HighlightError::NoRustSyntax)));
    assert!(matches!(highlight_code("", &ss, theme), Err(HighlightError::NoRustSyntax)));
}

#[test]
fn highlighting_is_repeatable() {
    let ss = SyntaxSet::load_defaults_newlines();
    let ts = ThemeSet::load_defaults();
    let theme = &ts.themes["base16-ocean.dark"];
    let code = "fn f() {\n    g(\"s\");\n}\n";
    let a = highlight_code(code, &ss, theme).ok().unwrap();
    let b = highlight_code(code, &ss, theme).ok().unwrap();
    assert_eq!(a.len(), 3);
    for (x, y) in a.iter().zip(b.iter()) {
        let xs: Vec<_> = x.iter().map(|s| (s.foreground, s.background, s.font, s.text.clone())).collect();
        let ys: Vec<_> = y.iter().map(|s| (s.foreground, s.background, s.font, s.text.clone())).collect();
        assert_eq!(xs, ys);
    }
    let empty = highlight_code("", &ss, theme).ok().unwrap();
    assert!(empty.is_empty());
}

#[test]
fn typewriter_pieces_show_the_line() {
    let fg = [10, 20, 30, 255];
    let bg = [0, 0, 0, 255];
    let line = vec![span(fg, bg, "let "), span([1, 2, 3, 255], bg, "x;")];
    let typed: String = typewriter_chars(&line).concat();
    assert_eq!(strip_escapes(&typed), "let x;");
}

#[test]
fn rendered_code_shows_each_line() {
    let ss = SyntaxSet::load_defaults_newlines();
    let ts = ThemeSet::load_defaults();
    let theme = &ts.themes["base16-ocean.dark"];
    let code = "let x = 1;\nfoo(x);";
    let lines = highlight_code(code, &ss, theme).ok().unwrap();
    let mut path = StepPath::new();
    let _ = enter_step(&mut path, "a");
    let shown = render_code(&path, &lines);
    assert_eq!(strip_escapes(&shown), "   let x = 1;\n   foo(x);");
    assert_eq!(render_code(&path, &Vec::new()), "");
}

#[test]
fn typewriter_step_decisions() {
    let fg = [10, 20, 30, 255];
    let bg = [0, 0, 0, 255];
    let line = vec![span(fg, bg, "ab"), span([1, 1, 1, 255], bg, "c")];
    match typewriter_step(&line, 0, false) {
        TypewriterAction::Type(s) => assert_eq!(s, "\x1b[38;2;10;20;30ma"),
        _ => panic!("expected a typed character"),
    }
    match typewriter_step(&line, 2, false) {
        TypewriterAction::Type(s) => assert_eq!(s, "\x1b[38;2;1;1;1mc"),
        _ => panic!("expected a typed character"),
    }
    match typewriter_step(&line, 1, true) {
        TypewriterAction::FastForward(s) => assert_eq!(s, fast_forward(&line, 1)),
        _ => panic!("expected a fast-forward"),
    }
    assert!(matches!(typewriter_step(&line, 3, false), TypewriterAction::EndLine));
    assert!(matches!(typewriter_step(&line, 3, true), TypewriterAction::EndLine));
    assert!(matches!(typewriter_step(&Vec::new(), 0, true), TypewriterAction::EndLine));
}

#[test]
fn fast_forward_completes_the_line() {
    let fg = [10, 20, 30, 255];
    let bg = [0, 0, 0, 255];
    let line = vec![span(fg, bg, "let "), span([1, 2, 3, 255], bg, "x;")];
    let pieces = typewriter_chars(&line);
    for k in 0..pieces.len() {
        let shown = format!("{}{}", pieces[..k].concat(), fast_forward(&line, k));
        assert_eq!(strip_escapes(&shown), "let x;");
    }
}
