use code_steps::display::{
    apply_build_config, enter_step, file_header_text, has_enter, leave_step, raw_mode,
    separator_text, set_typewriter, set_typewriter_line_pause, set_typewriter_speed,
    step_done_text, step_header_text, step_indent, wait_prompt, StepPath, Termios,
    TypewriterSettings,
};
use code_steps::filter::WaitFilter;

fn path_of(names: &[&str]) -> StepPath {
    let mut p = StepPath::new();
    for n in names {
        let _ = enter_step(&mut p, n);
    }
    p
}

#[test]
fn path_enter_and_leave() {
    let mut p = StepPath::new();
    assert_eq!(p.depth(), 0);
    let g = enter_step(&mut p, "Load");
    assert_eq!(p.depth(), 1);
    let g2 = enter_step(&mut p, "Parse");
    assert_eq!(p.depth(), 2);
    leave_step(&mut p, g2);
    assert_eq!(p.depth(), 1);
    leave_step(&mut p, g);
    assert_eq!(p.depth(), 0);
    let g3 = code_steps::display::StepGuard;
    leave_step(&mut p, g3);
    assert_eq!(p.depth(), 0);
}

#[test]
fn indent_grows_three_spaces_per_level() {
    assert_eq!(step_indent(&path_of(&[])), "");
    assert_eq!(step_indent(&path_of(&["a"])), "");
    assert_eq!(step_indent(&path_of(&["a", "b"])), "   ");
    assert_eq!(step_indent(&path_of(&["a", "b", "c"])), "      ");
}

#[test]
fn header_line_text() {
    assert_eq!(step_header_text(&path_of(&["Load"]), "Load"), "\x1b[36m[Load]\x1b[0m\n");
    assert_eq!(
        step_header_text(&path_of(&["a", "b"]), "b"),
        "   \x1b[36m[b]\x1b[0m\n"
    );
}

#[test]
fn separator_width_follows_columns() {
    let one = path_of(&["a"]);
    assert_eq!(separator_text(&one, Some("10")), "\x1b[36m==========\x1b[0m\n");
    assert_eq!(separator_text(&one, Some("+3")), "\x1b[36m===\x1b[0m\n");
    let default = format!("\x1b[36m{}\x1b[0m\n", "=".repeat(80));
    assert_eq!(separator_text(&one, None), default);
    assert_eq!(separator_text(&one, Some("wide")), default);
    assert_eq!(separator_text(&one, Some("-5")), default);
    let two = path_of(&["a", "b"]);
    assert_eq!(separator_text(&two, Some("5")), "   \x1b[36m==\x1b[0m\n");
    assert_eq!(separator_text(&two, Some("2")), "   \x1b[36m\x1b[0m\n");
}

#[test]
fn file_header_and_done_text() {
    assert_eq!(file_header_text("a.rs"), "\n\x1b[1m──── a.rs ────\x1b[0m\n\n");
    assert_eq!(step_done_text(), "\x1b[32m   ok\x1b[0m\n\n");
}

#[test]
fn prompt_texts() {
    assert_eq!(
        wait_prompt(None, &[], Some("hi"), &path_of(&[])),
        Some("\x1b[33m    hi\x1b[0m\n".to_string())
    );
    assert_eq!(
        wait_prompt(None, &[], None, &path_of(&[])),
        Some("\x1b[33m    ...\x1b[0m\n".to_string())
    );
    assert_eq!(
        wait_prompt(None, &[], None, &path_of(&["Load"])),
        Some("\x1b[32m    Load waiting\x1b[0m\n".to_string())
    );
    assert_eq!(
        wait_prompt(None, &[], None, &path_of(&["Load", "Parse"])),
        Some("   \x1b[33m    Load : \x1b[32mParse waiting\x1b[0m\n".to_string())
    );
    assert_eq!(
        wait_prompt(None, &[], None, &path_of(&["A", "B", "C"])),
        Some("      \x1b[33m    A : B : \x1b[32mC waiting\x1b[0m\n".to_string())
    );
}

#[test]
fn prompt_skipped_only_for_blocked_tags() {
    let f = WaitFilter::from_args(&vec!["p".to_string(), "--include".to_string(), "x".to_string()]);
    assert_eq!(wait_prompt(Some(&f), &["y"], None, &path_of(&["A"])), None);
    assert!(wait_prompt(Some(&f), &[], None, &path_of(&["A"])).is_some());
    assert!(wait_prompt(Some(&f), &["x"], None, &path_of(&["A"])).is_some());
}

#[test]
fn typewriter_settings_updates() {
    let mut t = TypewriterSettings::new();
    assert!(!t.enabled);
    assert_eq!((t.speed_ms, t.line_pause_ms), (15, 150));
    set_typewriter(&mut t, true);
    set_typewriter_speed(&mut t, 5);
    set_typewriter_line_pause(&mut t, 7);
    assert!(t.enabled);
    assert_eq!((t.speed_ms, t.line_pause_ms), (5, 7));
}

#[test]
fn build_config_is_applied() {
    let mut t = TypewriterSettings::new();
    apply_build_config(&mut t, Some("true"), Some("20"), Some("soon"));
    assert!(t.enabled);
    assert_eq!((t.speed_ms, t.line_pause_ms), (20, 150));
    let mut t = TypewriterSettings::new();
    apply_build_config(&mut t, Some("yes"), None, Some("18446744073709551615"));
    assert!(!t.enabled);
    assert_eq!((t.speed_ms, t.line_pause_ms), (15, u64::MAX));
    let mut t = TypewriterSettings::new();
    apply_build_config(&mut t, None, Some("18446744073709551616"), Some(""));
    assert_eq!((t.speed_ms, t.line_pause_ms), (15, 150));
}

#[test]
fn raw_mode_clears_line_flags() {
    let orig = Termios {
        c_iflag: 1,
        c_oflag: 2,
        c_cflag: 3,
        c_lflag: 0xff,
        c_cc: [9; 20],
        c_ispeed: 4,
        c_ospeed: 5,
    };
    let t = raw_mode(&orig);
    assert_eq!(t.c_lflag, 0xf4);
    assert_eq!(t.c_cc[6], 1);
    assert_eq!(t.c_cc[5], 0);
    assert_eq!(t.c_cc[4], 9);
    assert_eq!((t.c_iflag, t.c_oflag, t.c_cflag, t.c_ispeed, t.c_ospeed), (1, 2, 3, 4, 5));
}

#[test]
fn enter_detection() {
    assert!(has_enter(b"abc\n"));
    assert!(has_enter(b"\r"));
    assert!(!has_enter(b"abc"));
    assert!(!has_enter(b""));
}
