//! Terminal layout for steps: the nesting path of running steps, the text
//! of headers, separators, prompts and markers, typewriter settings, and the
//! raw terminal mode used while typing code out.
//!
//! Every function here computes what goes to the terminal; writing it out
//! (to stderr), waiting for Enter and sleeping are left to the caller.

use vstd::prelude::*;
use crate::filter;
use crate::filter::WaitFilter;
use crate::text;

verus! {

// ─────────────────────────────── nesting path ───────────────────────────────

/// The names of the steps that are running, outermost first.
pub struct StepPath {
    names: Vec<String>,
}

impl View for StepPath {
    type V = Seq<Seq<char>>;

    closed spec fn view(&self) -> Seq<Seq<char>> {
        filter::string_views(self.names@)
    }
}

/// The token handed out when a step starts; give it back to
/// [`leave_step`] when the step ends.
pub struct StepGuard;

impl StepPath {
    /// No step is running.
    pub fn new() -> (p: StepPath)
        ensures
            p@ == Seq::<Seq<char>>::empty(),
    {
        let p = StepPath { names: Vec::new() };
        assert(p@ =~= Seq::<Seq<char>>::empty());
        p
    }

    /// The number of running steps.
    pub fn depth(&self) -> (d: usize)
        ensures
            d == self@.len(),
    {
        self.names.len()
    }
}

/// Push `name` onto the nesting path; the returned guard pops it again
/// (see [`leave_step`]).
pub fn enter_step(path: &mut StepPath, name: &str) -> (g: StepGuard)
    ensures
        final(path)@ == old(path)@.push(name@),
{
    let ghost before = path.names@;
    path.names.push(text::string_of(&text::chars_of(name)));
    assert(filter::string_views(path.names@) =~= filter::string_views(before).push(name@));
    StepGuard
}

/// Pop the innermost step off the nesting path (nothing happens on an
/// empty path).
pub fn leave_step(path: &mut StepPath, guard: StepGuard)
    ensures
        old(path)@.len() > 0 ==> final(path)@ == old(path)@.drop_last(),
        old(path)@.len() == 0 ==> final(path)@ == old(path)@,
{
    let ghost before = path.names@;
    let _ = path.names.pop();
    assert(before.len() > 0 ==> filter::string_views(path.names@) =~= filter::string_views(
        before,
    ).drop_last());
}

/// Entering a step and leaving it again restores the nesting path.
pub proof fn law_enter_then_leave(before: Seq<Seq<char>>, name: Seq<char>)
    ensures
        before.push(name).len() > 0,
        before.push(name).drop_last() == before,
{
    assert(before.push(name).drop_last() =~= before);
}

// ──────────────────────────────── layout text ────────────────────────────────

/// `n` copies of `c`.
pub open spec fn repeat(c: char, n: nat) -> Seq<char> {
    Seq::new(n, |k: int| c)
}

/// The indentation of output at nesting depth `d`: three spaces per level
/// below the outermost step.
pub open spec fn indent_text(d: nat) -> Seq<char> {
    repeat(' ', if d >= 1 {
        (3 * (d - 1)) as nat
    } else {
        0
    })
}

pub open spec fn cyan() -> Seq<char> {
    seq!['\x1b', '[', '3', '6', 'm']
}

pub open spec fn green() -> Seq<char> {
    seq!['\x1b', '[', '3', '2', 'm']
}

pub open spec fn yellow() -> Seq<char> {
    seq!['\x1b', '[', '3', '3', 'm']
}

pub open spec fn bold() -> Seq<char> {
    seq!['\x1b', '[', '1', 'm']
}

pub open spec fn reset() -> Seq<char> {
    seq!['\x1b', '[', '0', 'm']
}

/// Appends `n` copies of `c` to `out`.
fn push_repeat(out: &mut Vec<char>, c: char, n: usize)
    ensures
        final(out)@ == old(out)@ + repeat(c, n as nat),
{
    let mut k: usize = 0;
    while k < n
        invariant
            k <= n,
            out@ == old(out)@ + repeat(c, k as nat),
        decreases n - k,
    {
        out.push(c);
        assert(repeat(c, (k + 1) as nat) == repeat(c, k as nat).push(c));
        k = k + 1;
    }
}

/// The number of indentation spaces at depth `d`.
fn indent_width(d: usize) -> (w: usize)
    requires
        d <= usize::MAX / 3 + 1,
    ensures
        w == indent_text(d as nat).len(),
{
    if d >= 1 {
        3 * (d - 1)
    } else {
        0
    }
}

/// The indentation at the current nesting depth (`"   "` per level below
/// the outermost step).
pub fn step_indent(path: &StepPath) -> (s: String)
    requires
        path@.len() <= usize::MAX / 3 + 1,
    ensures
        s@ == indent_text(path@.len()),
{
    let mut out: Vec<char> = Vec::new();
    push_repeat(&mut out, ' ', indent_width(path.depth()));
    text::string_of(&out)
}


/// The cyan `[comment]` line that introduces a step.
pub open spec fn step_header_spec(d: nat, comment: Seq<char>) -> Seq<char> {
    indent_text(d) + cyan() + seq!['['] + comment + seq![']'] + reset() + seq!['\n']
}

/// The cyan `[comment]` line introducing the next step, indented for the
/// current nesting depth.
pub fn step_header_text(path: &StepPath, comment: &str) -> (s: String)
    requires
        path@.len() <= usize::MAX / 3 + 1,
    ensures
        s@ == step_header_spec(path@.len(), comment@),
{
    let mut out: Vec<char> = Vec::new();
    push_repeat(&mut out, ' ', indent_width(path.depth()));
    text::append_chars(&mut out, &vec!['\x1b', '[', '3', '6', 'm', '[']);
    text::append_chars(&mut out, &text::chars_of(comment));
    text::append_chars(&mut out, &vec![']', '\x1b', '[', '0', 'm', '\n']);
    proof {
        assert(out@ =~= step_header_spec(path@.len(), comment@));
    }
    text::string_of(&out)
}

/// The width of the separator: the terminal width (the `COLUMNS` value, 80
/// when it is absent or not a number) less the indentation, and 0 when the
/// indentation is wider.
pub open spec fn separator_width(d: nat, columns: Option<Seq<char>>) -> nat {
    let total: nat = match columns {
        Some(c) => match text::parse_usize_spec(c) {
            Some(w) => w as nat,
            None => 80,
        },
        None => 80,
    };
    if total >= indent_text(d).len() {
        (total - indent_text(d).len()) as nat
    } else {
        0
    }
}

/// The line of `=` that separates steps.
pub open spec fn separator_spec(d: nat, columns: Option<Seq<char>>) -> Seq<char> {
    indent_text(d) + cyan() + repeat('=', separator_width(d, columns)) + reset() + seq!['\n']
}

/// The cyan line of `=` above each step header, as wide as the terminal
/// (`columns` is the `COLUMNS` setting, if there is one) less the
/// indentation.
pub fn separator_text(path: &StepPath, columns: Option<&str>) -> (s: String)
    requires
        path@.len() <= usize::MAX / 3 + 1,
    ensures
        s@ == separator_spec(path@.len(), match columns {
            Some(c) => Some(c@),
            None => None,
        }),
{
    let iw = indent_width(path.depth());
    let total: usize = match columns {
        Some(c) => match text::parse_usize(c) {
            Some(w) => w,
            None => 80,
        },
        None => 80,
    };
    let width = total.saturating_sub(iw);
    let mut out: Vec<char> = Vec::new();
    push_repeat(&mut out, ' ', iw);
    text::append_chars(&mut out, &vec!['\x1b', '[', '3', '6', 'm']);
    push_repeat(&mut out, '=', width);
    text::append_chars(&mut out, &vec!['\x1b', '[', '0', 'm', '\n']);
    proof {
        let cols = match columns {
            Some(c) => Some(c@),
            None => None,
        };
        assert(width == separator_width(path@.len(), cols));
        assert(out@ =~= separator_spec(path@.len(), cols));
    }
    text::string_of(&out)
}

/// A bold `──── name ────` header between a blank line before and after.
pub open spec fn file_header_spec(filename: Seq<char>) -> Seq<char> {
    seq!['\n'] + bold() + seq!['─', '─', '─', '─', ' '] + filename + seq![
        ' ',
        '─',
        '─',
        '─',
        '─',
    ] + reset() + seq!['\n', '\n']
}

/// A bold header naming a file, with blank lines before and after.
pub fn file_header_text(filename: &str) -> (s: String)
    ensures
        s@ == file_header_spec(filename@),
{
    let mut out: Vec<char> = Vec::new();
    text::append_chars(&mut out, &vec!['\n', '\x1b', '[', '1', 'm', '─', '─', '─', '─', ' ']);
    text::append_chars(&mut out, &text::chars_of(filename));
    text::append_chars(
        &mut out,
        &vec![' ', '─', '─', '─', '─', '\x1b', '[', '0', 'm', '\n', '\n'],
    );
    proof {
        assert(out@ =~= file_header_spec(filename@));
    }
    text::string_of(&out)
}

/// The green `   ok` marker after a step body has run, and a blank line.
pub open spec fn step_done_spec() -> Seq<char> {
    green() + seq![' ', ' ', ' ', 'o', 'k'] + reset() + seq!['\n', '\n']
}

/// The green `   ok` marker shown after a step body has finished.
pub fn step_done_text() -> (s: String)
    ensures
        s@ == step_done_spec(),
{
    let out = vec!['\x1b', '[', '3', '2', 'm', ' ', ' ', ' ', 'o', 'k', '\x1b', '[', '0', 'm', '\n', '\n'];
    proof {
        assert(out@ =~= step_done_spec());
    }
    text::string_of(&out)
}

/// The pause prompt for the current nesting path `path` (depth `d` is its
/// length): a custom message in yellow; otherwise `name waiting` in green
/// for a single step, the parents joined by ` : ` in yellow before
/// `name waiting` in green for nested steps, and a yellow `...` outside any
/// step.
pub open spec fn prompt_spec(path: Seq<Seq<char>>, msg: Option<Seq<char>>) -> Seq<char> {
    let lead = indent_text(path.len()) + match msg {
        Some(m) => yellow() + seq![' ', ' ', ' ', ' '] + m + reset(),
        None => if path.len() == 0 {
            yellow() + seq![' ', ' ', ' ', ' ', '.', '.', '.'] + reset()
        } else if path.len() == 1 {
            green() + seq![' ', ' ', ' ', ' '] + path.last() + waiting() + reset()
        } else {
            yellow() + seq![' ', ' ', ' ', ' '] + text::join(path.drop_last(), colon_sep())
                + colon_sep() + green() + path.last() + waiting() + reset()
        },
    };
    lead + seq!['\n']
}

/// A custom message is shown at every nesting depth, the same way: the
/// indentation, then the message in yellow after four spaces; the names of
/// the running steps do not appear.
pub proof fn law_custom_message_at_any_depth(path: Seq<Seq<char>>, m: Seq<char>)
    ensures
        prompt_spec(path, Some(m)) == indent_text(path.len()) + seq![
            '\x1b',
            '[',
            '3',
            '3',
            'm',
            ' ',
            ' ',
            ' ',
            ' ',
        ] + m + seq!['\x1b', '[', '0', 'm', '\n'],
{
    let y = seq!['\x1b', '[', '3', '3', 'm', ' ', ' ', ' ', ' '];
    assert(yellow() + seq![' ', ' ', ' ', ' '] =~= y);
    assert(reset() + seq!['\n'] =~= seq!['\x1b', '[', '0', 'm', '\n']);
    assert(indent_text(path.len()) + (yellow() + seq![' ', ' ', ' ', ' '] + m + reset()) + seq![
        '\n',
    ] =~= indent_text(path.len()) + y + m + seq!['\x1b', '[', '0', 'm', '\n']);
}

/// ` waiting`
pub open spec fn waiting() -> Seq<char> {
    seq![' ', 'w', 'a', 'i', 't', 'i', 'n', 'g']
}

/// ` : `
pub open spec fn colon_sep() -> Seq<char> {
    seq![' ', ':', ' ']
}

/// What a pause shows before it waits for Enter, or `None` when the filter
/// blocks `tags` and the pause is skipped (a pause without tags is never
/// skipped). `msg` is a custom message shown in place of the nesting path.
pub fn wait_prompt(filter: Option<&WaitFilter>, tags: &[&str], msg: Option<&str>, path: &StepPath) -> (r: Option<String>)
    requires
        path@.len() <= usize::MAX / 3 + 1,
    ensures
        r is None <==> !filter::filter_matches_spec(filter, tags@),
        r is Some ==> r->0@ == prompt_spec(path@, match msg {
            Some(m) => Some(m@),
            None => None,
        }),
{
    if !filter::filter_matches(filter, tags) {
        return None;
    }
    let mut out: Vec<char> = Vec::new();
    push_repeat(&mut out, ' ', indent_width(path.depth()));
    let ghost lead = out@;
    let d = path.names.len();
    match msg {
        Some(m) => {
            text::append_chars(&mut out, &vec!['\x1b', '[', '3', '3', 'm', ' ', ' ', ' ', ' ']);
            text::append_chars(&mut out, &text::chars_of(m));
            text::append_chars(&mut out, &vec!['\x1b', '[', '0', 'm']);
        },
        None => {
            if d == 0 {
                text::append_chars(
                    &mut out,
                    &vec!['\x1b', '[', '3', '3', 'm', ' ', ' ', ' ', ' ', '.', '.', '.', '\x1b', '[', '0', 'm'],
                );
            } else if d == 1 {
                text::append_chars(&mut out, &vec!['\x1b', '[', '3', '2', 'm', ' ', ' ', ' ', ' ']);
                text::append_chars(&mut out, &text::chars_of(path.names[0].as_str()));
                text::append_chars(
                    &mut out,
                    &vec![' ', 'w', 'a', 'i', 't', 'i', 'n', 'g', '\x1b', '[', '0', 'm'],
                );
            } else {
                text::append_chars(&mut out, &vec!['\x1b', '[', '3', '3', 'm', ' ', ' ', ' ', ' ']);
                let mut parents: Vec<Vec<char>> = Vec::new();
                let mut k: usize = 0;
                while k < d - 1
                    invariant
                        d == path@.len(),
                        d >= 2,
                        k <= d - 1,
                        text::views(parents@) == path@.take(k as int),
                    decreases d - 1 - k,
                {
                    let ghost before = parents@;
                    parents.push(text::chars_of(path.names[k].as_str()));
                    assert(text::views(parents@) =~= text::views(before).push(path@[k as int]));
                    assert(path@.take(k + 1) =~= path@.take(k as int).push(path@[k as int]));
                    k = k + 1;
                }
                assert(path@.take(d - 1) =~= path@.drop_last());
                text::append_joined(&mut out, &parents, &vec![' ', ':', ' ']);
                text::append_chars(&mut out, &vec![' ', ':', ' ', '\x1b', '[', '3', '2', 'm']);
                text::append_chars(&mut out, &text::chars_of(path.names[d - 1].as_str()));
                text::append_chars(
                    &mut out,
                    &vec![' ', 'w', 'a', 'i', 't', 'i', 'n', 'g', '\x1b', '[', '0', 'm'],
                );
            }
        },
    }
    out.push('\n');
    proof {
        let m = match msg {
            Some(m) => Some(m@),
            None => None,
        };
        assert(out@ =~= prompt_spec(path@, m));
    }
    Some(text::string_of(&out))
}


// ─────────────────────────────── typewriter ───────────────────────────────

/// How code is typed out: on or off, the delay per character and the pause
/// at each line end, in milliseconds.
pub struct TypewriterSettings {
    pub enabled: bool,
    pub speed_ms: u64,
    pub line_pause_ms: u64,
}

impl TypewriterSettings {
    /// Off, 15 ms per character, 150 ms per line.
    pub fn new() -> (t: TypewriterSettings)
        ensures
            !t.enabled,
            t.speed_ms == 15,
            t.line_pause_ms == 150,
    {
        TypewriterSettings { enabled: false, speed_ms: 15, line_pause_ms: 150 }
    }
}

/// Enable or disable typewriter display for all later steps.
pub fn set_typewriter(settings: &mut TypewriterSettings, on: bool)
    ensures
        final(settings).enabled == on,
        final(settings).speed_ms == old(settings).speed_ms,
        final(settings).line_pause_ms == old(settings).line_pause_ms,
{
    settings.enabled = on;
}

/// Set the typewriter character delay in milliseconds.
pub fn set_typewriter_speed(settings: &mut TypewriterSettings, ms: u64)
    ensures
        final(settings).speed_ms == ms,
        final(settings).enabled == old(settings).enabled,
        final(settings).line_pause_ms == old(settings).line_pause_ms,
{
    settings.speed_ms = ms;
}

/// Set the typewriter line-end pause in milliseconds.
pub fn set_typewriter_line_pause(settings: &mut TypewriterSettings, ms: u64)
    ensures
        final(settings).line_pause_ms == ms,
        final(settings).enabled == old(settings).enabled,
        final(settings).speed_ms == old(settings).speed_ms,
{
    settings.line_pause_ms = ms;
}

/// `true`
pub open spec fn true_word() -> Seq<char> {
    seq!['t', 'r', 'u', 'e']
}

/// Apply the build-time configuration (the values of the `typewriter`,
/// `typewriter-speed` and `typewriter-line-pause` settings, where given):
/// `true` turns typewriter mode on (any other value leaves it as it is), and
/// a number sets the delay or the pause (anything else leaves it as it is).
pub fn apply_build_config(
    settings: &mut TypewriterSettings,
    typewriter: Option<&str>,
    speed: Option<&str>,
    line_pause: Option<&str>,
)
    ensures
        final(settings).enabled == (old(settings).enabled || match typewriter {
            Some(v) => v@ == true_word(),
            None => false,
        }),
        final(settings).speed_ms == match speed {
            Some(v) => match text::parse_u64_spec(v@) {
                Some(n) => n,
                None => old(settings).speed_ms,
            },
            None => old(settings).speed_ms,
        },
        final(settings).line_pause_ms == match line_pause {
            Some(v) => match text::parse_u64_spec(v@) {
                Some(n) => n,
                None => old(settings).line_pause_ms,
            },
            None => old(settings).line_pause_ms,
        },
{
    if let Some(v) = typewriter {
        let word = vec!['t', 'r', 'u', 'e'];
        if text::chars_eq(&text::chars_of(v), &word) {
            settings.enabled = true;
        }
    }
    if let Some(v) = speed {
        if let Some(n) = text::parse_u64(v) {
            settings.speed_ms = n;
        }
    }
    if let Some(v) = line_pause {
        if let Some(n) = text::parse_u64(v) {
            settings.line_pause_ms = n;
        }
    }
}

// ──────────────────────────────── raw mode ────────────────────────────────

/// `ICANON`: line-by-line input.
pub const ICANON: u64 = 0x0000_0002;

/// `ECHO`: echo typed characters.
pub const ECHO: u64 = 0x0000_0008;

/// `ISIG`: generate signals for interrupt characters.
pub const ISIG: u64 = 0x0000_0001;

/// Index of `VMIN` in `c_cc`.
pub const VMIN: usize = 6;

/// Index of `VTIME` in `c_cc`.
pub const VTIME: usize = 5;

/// Terminal attributes, field by field as `tcgetattr` fills them.
#[derive(Clone, Copy)]
pub struct Termios {
    pub c_iflag: u64,
    pub c_oflag: u64,
    pub c_cflag: u64,
    pub c_lflag: u64,
    pub c_cc: [u8; 20],
    pub c_ispeed: u64,
    pub c_ospeed: u64,
}

/// The attributes for reading keys one at a time while code is typed out:
/// canonical mode, echo and signal characters off; a read returns after one
/// byte, with no timeout. Everything else stays as in `orig`.
pub fn raw_mode(orig: &Termios) -> (t: Termios)
    ensures
        t.c_lflag == orig.c_lflag & !(ICANON | ECHO | ISIG),
        t.c_cc@ == orig.c_cc@.update(VMIN as int, 1).update(VTIME as int, 0),
        t.c_iflag == orig.c_iflag,
        t.c_oflag == orig.c_oflag,
        t.c_cflag == orig.c_cflag,
        t.c_ispeed == orig.c_ispeed,
        t.c_ospeed == orig.c_ospeed,
{
    let mut cc = orig.c_cc;
    cc[VMIN] = 1;
    cc[VTIME] = 0;
    Termios {
        c_iflag: orig.c_iflag,
        c_oflag: orig.c_oflag,
        c_cflag: orig.c_cflag,
        c_lflag: orig.c_lflag & !(ICANON | ECHO | ISIG),
        c_cc: cc,
        c_ispeed: orig.c_ispeed,
        c_ospeed: orig.c_ospeed,
    }
}

/// Whether a byte read from the terminal is Enter (`\n` or `\r`).
pub open spec fn is_enter(b: u8) -> bool {
    b == 10 || b == 13
}

/// Whether bytes read from the terminal hold an Enter key press.
pub fn has_enter(bytes: &[u8]) -> (r: bool)
    ensures
        r == exists|k: int| 0 <= k < bytes@.len() && is_enter(#[trigger] bytes@[k]),
{
    let mut k: usize = 0;
    while k < bytes.len()
        invariant
            k <= bytes@.len(),
            forall|t: int| 0 <= t < k ==> !is_enter(#[trigger] bytes@[t]),
        decreases bytes@.len() - k,
    {
        if bytes[k] == 10 || bytes[k] == 13 {
            assert(is_enter(bytes@[k as int]));
            return true;
        }
        k = k + 1;
    }
    false
}

} // verus!
