//! Syntax-highlighted display of step code: the code is split into lines
//! (each with its line ending), each line is highlighted as Rust by
//! `syntect`, and each styled span becomes a 24-bit terminal color escape
//! followed by its text.

use vstd::prelude::*;
use syntect::easy::HighlightLines;
use syntect::highlighting::{Color, FontStyle, Style, Theme};
use syntect::parsing::{SyntaxReference, SyntaxSet};
use syntect::util::as_24_bit_terminal_escaped;
use crate::display;
use crate::display::StepPath;
use crate::text;

verus! {

#[verifier::external_type_specification]
#[verifier::external_body]
pub struct ExSyntaxSet(SyntaxSet);

#[verifier::external_type_specification]
#[verifier::external_body]
pub struct ExSyntaxReference(SyntaxReference);

#[verifier::external_type_specification]
#[verifier::external_body]
pub struct ExTheme(Theme);

#[verifier::external_type_specification]
#[verifier::external_body]
pub struct ExHighlightLines<'a>(HighlightLines<'a>);

#[verifier::external_type_specification]
#[verifier::external_body]
pub struct ExSyntectError(syntect::Error);

/// A piece of a highlighted line: its colors (red, green, blue, alpha),
/// its font style bits and its text.
pub struct Span {
    pub foreground: [u8; 4],
    pub background: [u8; 4],
    pub font: u8,
    pub text: String,
}

/// The texts of `spans`, one after the other.
pub open spec fn span_texts(spans: Seq<Span>) -> Seq<char>
    decreases spans.len(),
{
    if spans.len() == 0 {
        Seq::empty()
    } else {
        span_texts(spans.drop_last()) + spans.last().text@
    }
}

/// The text of `s` from index `i` on, cut after each line ending
/// (`syntect::util::LinesWithEndings`).
pub open spec fn pieces_from(s: Seq<char>, i: int) -> Seq<Seq<char>>
    decreases s.len() - i,
{
    if i < 0 || i >= s.len() {
        Seq::empty()
    } else {
        let j = text::find_char_from(s, '\n', i);
        if j < s.len() {
            proof {
                text::lemma_find_char_bounds(s, '\n', i);
            }
            seq![s.subrange(i, j + 1)] + pieces_from(s, j + 1)
        } else {
            seq![s.subrange(i, s.len() as int)]
        }
    }
}

/// The lines of `s`, each with its line ending.
pub open spec fn line_pieces(s: Seq<char>) -> Seq<Seq<char>> {
    pieces_from(s, 0)
}

/// Executable [`line_pieces`].
pub fn split_with_endings(v: &Vec<char>) -> (ls: Vec<Vec<char>>)
    ensures
        text::views(ls@) == line_pieces(v@),
{
    let mut ls: Vec<Vec<char>> = Vec::new();
    let mut i: usize = 0;
    while i < v.len()
        invariant
            i <= v.len(),
            text::views(ls@) + pieces_from(v@, i as int) == line_pieces(v@),
        decreases v.len() - i,
    {
        let j = text::find_char(v, '\n', i);
        let ghost old_ls = ls@;
        if j < v.len() {
            ls.push(text::slice_vec(v, i, j + 1));
            assert(text::views(ls@) == text::views(old_ls).push(v@.subrange(i as int, j + 1)));
            assert(text::views(ls@) + pieces_from(v@, j + 1) == text::views(old_ls) + pieces_from(
                v@,
                i as int,
            ));
            i = j + 1;
        } else {
            ls.push(text::slice_vec(v, i, v.len()));
            assert(text::views(ls@) == text::views(old_ls).push(
                v@.subrange(i as int, v.len() as int),
            ));
            assert(pieces_from(v@, v.len() as int) == Seq::<Seq<char>>::empty());
            assert(text::views(ls@) + pieces_from(v@, v.len() as int) == text::views(old_ls)
                + pieces_from(v@, i as int));
            i = v.len();
        }
    }
    assert(text::views(ls@) + pieces_from(v@, i as int) == text::views(ls@));
    ls
}

/// A span as plain values: foreground, background, font style bits, text.
pub open spec fn span_value(s: Span) -> (Seq<u8>, Seq<u8>, u8, Seq<char>) {
    (s.foreground@, s.background@, s.font, s.text@)
}

/// Each span as plain values.
pub open spec fn span_values(spans: Seq<Span>) -> Seq<(Seq<u8>, Seq<u8>, u8, Seq<char>)> {
    Seq::new(spans.len(), |k: int| span_value(spans[k]))
}

/// The syntax that `SyntaxSet::find_syntax_by_name` finds in `set` under
/// `name`, if any.
pub uninterp spec fn syntax_found(set: SyntaxSet, name: Seq<char>) -> Option<SyntaxReference>;

/// The highlighter that `HighlightLines::new` makes for `syntax` and
/// `theme`.
pub uninterp spec fn fresh_highlighter(syntax: SyntaxReference, theme: Theme) -> HighlightLines<
    'static,
>;

/// What `HighlightLines::highlight_line` gives for `line` from highlighter
/// `h` with syntaxes `set`: the spans as plain values, or `None` where it
/// fails; and the highlighter after the call.
pub uninterp spec fn highlighted_line(h: HighlightLines<'static>, line: Seq<char>, set: SyntaxSet) -> (
    Option<Seq<(Seq<u8>, Seq<u8>, u8, Seq<char>)>>,
    HighlightLines<'static>,
);

/// The syntax with the given name (`SyntaxSet::find_syntax_by_name`): a
/// search of the set's syntaxes by name, so the result is a function of the
/// set and the name.
#[verifier::external_body]
fn find_syntax<'a>(syntaxes: &'a SyntaxSet, name: &str) -> (r: Option<&'a SyntaxReference>)
    ensures
        match r {
            Some(s) => syntax_found(*syntaxes, name@) == Some(*s),
            None => syntax_found(*syntaxes, name@) is None,
        },
{
    syntaxes.find_syntax_by_name(name)
}

/// Whether `h` was made for a syntax of `set` and has since highlighted
/// lines with `set` alone, none of them failing: the parse state then
/// refers only to contexts of `set`.
pub open spec fn made_for_set(h: HighlightLines<'static>, set: SyntaxSet) -> bool {
    exists|name: Seq<char>, syntax: SyntaxReference, theme: Theme, lines: Seq<Seq<char>>, k: nat|
        #![trigger syntax_found(set, name), lines_highlighted(fresh_highlighter(syntax, theme), lines, set, k)]
        syntax_found(set, name) == Some(syntax) && lines_highlighted(
            fresh_highlighter(syntax, theme),
            lines,
            set,
            k,
        ).0 is Some && lines_highlighted(fresh_highlighter(syntax, theme), lines, set, k).1 == h
}

/// A highlighter for `syntax` in `theme` (`HighlightLines::new`); it keeps
/// its parse state from one line to the next. The syntax is one that a
/// syntax set holds, so that its start context is there.
#[verifier::external_body]
fn new_highlighter<'a>(syntax: &SyntaxReference, theme: &'a Theme) -> (h: HighlightLines<'a>)
    requires
        exists|set: SyntaxSet, name: Seq<char>| syntax_found(set, name) == Some(*syntax),
    ensures
        h == fresh_highlighter(*syntax, *theme),
{
    HighlightLines::new(syntax, theme)
}

/// The styled spans of the next line (`HighlightLines::highlight_line`),
/// each span's style copied into plain values. The spans, and the parse
/// state that `h` carries on, are a function of `h`, the line and the
/// syntaxes; syntect documents that the texts of the spans, put together,
/// make the line. The parser looks up the contexts that its state refers to
/// in `syntaxes` and unwraps the result, so `h` must be a highlighter made
/// for a syntax of `syntaxes` and used with it alone.
#[verifier::external_body]
fn highlight_line(h: &mut HighlightLines, line: &str, syntaxes: &SyntaxSet) -> (r: Result<
    Vec<Span>,
    syntect::Error,
>)
    requires
        made_for_set(*old(h), *syntaxes),
    ensures
        r is Ok ==> span_texts(r->Ok_0@) == line@,
        *final(h) == highlighted_line(*old(h), line@, *syntaxes).1,
        match r {
            Ok(v) => highlighted_line(*old(h), line@, *syntaxes).0 == Some(span_values(v@)),
            Err(_) => highlighted_line(*old(h), line@, *syntaxes).0 is None,
        },
{
    match h.highlight_line(line, syntaxes) {
        Ok(ranges) => Ok(ranges.iter().map(|(s, t)| Span {
            foreground: [s.foreground.r, s.foreground.g, s.foreground.b, s.foreground.a],
            background: [s.background.r, s.background.g, s.background.b, s.background.a],
            font: s.font_style.bits(),
            text: t.to_string(),
        }).collect()),
        Err(e) => Err(e),
    }
}

/// The character of decimal digit `d`.
pub open spec fn digit_char(d: nat) -> char {
    if d == 0 {
        '0'
    } else if d == 1 {
        '1'
    } else if d == 2 {
        '2'
    } else if d == 3 {
        '3'
    } else if d == 4 {
        '4'
    } else if d == 5 {
        '5'
    } else if d == 6 {
        '6'
    } else if d == 7 {
        '7'
    } else if d == 8 {
        '8'
    } else {
        '9'
    }
}

/// The decimal digits of `n`.
pub open spec fn decimal(n: nat) -> Seq<char>
    decreases n,
{
    if n < 10 {
        seq![digit_char(n)]
    } else {
        decimal(n / 10).push(digit_char(n % 10))
    }
}

/// One channel of the foreground blended over the background by the
/// foreground's alpha (an opaque foreground is taken as it is).
pub open spec fn blend(fg: Seq<u8>, bg: Seq<u8>, k: int) -> nat {
    if fg[3] == 255 {
        fg[k] as nat
    } else {
        ((fg[k] * fg[3] + bg[k] * (255 - fg[3])) / 255) as nat
    }
}

/// The 24-bit foreground escape for colors `fg` over `bg`, then `t`.
pub open spec fn escaped(fg: Seq<u8>, bg: Seq<u8>, t: Seq<char>) -> Seq<char> {
    seq!['\x1b', '[', '3', '8', ';', '2', ';'] + decimal(blend(fg, bg, 0)) + seq![';']
        + decimal(blend(fg, bg, 1)) + seq![';'] + decimal(blend(fg, bg, 2)) + seq!['m'] + t
}

/// `t` in the colors of `span` as a 24-bit terminal escape
/// (`syntect::util::as_24_bit_terminal_escaped` without background): the
/// foreground blended over the background by its alpha, as
/// `\x1b[38;2;R;G;Bm`, then the text.
#[verifier::external_body]
fn terminal_escaped(span: &Span, t: &str) -> (r: String)
    ensures
        r@ == escaped(span.foreground@, span.background@, t@),
{
    let color = |c: [u8; 4]| Color { r: c[0], g: c[1], b: c[2], a: c[3] };
    let style = Style {
        foreground: color(span.foreground),
        background: color(span.background),
        font_style: FontStyle::from_bits_truncate(span.font),
    };
    as_24_bit_terminal_escaped(&[(style, t)], false)
}

/// Why code could not be highlighted.
pub enum HighlightError {
    /// The syntax set has no syntax named `Rust`.
    NoRustSyntax,
    /// The highlighter failed on a line.
    Highlighting,
}

/// `Rust`
pub open spec fn rust_name() -> Seq<char> {
    seq!['R', 'u', 's', 't']
}

/// The first `k` of `lines` highlighted one after the other, starting from
/// highlighter `h0`: the spans of each line as plain values, or `None`
/// where a line fails; and the highlighter after them.
pub open spec fn lines_highlighted(
    h0: HighlightLines<'static>,
    lines: Seq<Seq<char>>,
    set: SyntaxSet,
    k: nat,
) -> (Option<Seq<Seq<(Seq<u8>, Seq<u8>, u8, Seq<char>)>>>, HighlightLines<'static>)
    decreases k,
{
    if k == 0 {
        (Some(Seq::empty()), h0)
    } else {
        let (acc, h) = lines_highlighted(h0, lines, set, (k - 1) as nat);
        let (line, next) = highlighted_line(h, lines[k - 1], set);
        match acc {
            None => (None, h),
            Some(a) => match line {
                None => (None, next),
                Some(spans) => (Some(a.push(spans)), next),
            },
        }
    }
}

/// What highlighting `code` as Rust in `theme` gives: the Rust syntax of
/// `set`, then each line (with its ending) in turn from a fresh
/// highlighter; `Err(NoRustSyntax)` without that syntax,
/// `Err(Highlighting)` where a line fails.
pub open spec fn code_highlighted(code: Seq<char>, set: SyntaxSet, theme: Theme) -> Result<
    Seq<Seq<(Seq<u8>, Seq<u8>, u8, Seq<char>)>>,
    HighlightError,
> {
    match syntax_found(set, rust_name()) {
        None => Err(HighlightError::NoRustSyntax),
        Some(syntax) => match lines_highlighted(
            fresh_highlighter(syntax, theme),
            line_pieces(code),
            set,
            line_pieces(code).len(),
        ).0 {
            None => Err(HighlightError::Highlighting),
            Some(v) => Ok(v),
        },
    }
}

/// The spans of each line, as plain values.
pub open spec fn line_span_values(lines: Seq<Vec<Span>>) -> Seq<
    Seq<(Seq<u8>, Seq<u8>, u8, Seq<char>)>,
> {
    Seq::new(lines.len(), |k: int| span_values(lines[k]@))
}

/// The spans of each line of `code`, highlighted as Rust in `theme`: one
/// entry per line (each line with its ending), whose span texts make up
/// the line. Fails with `NoRustSyntax` when `syntaxes` has no syntax named
/// `Rust`, and with `Highlighting` when the highlighter fails on a line.
pub fn highlight_code(code: &str, syntaxes: &SyntaxSet, theme: &Theme) -> (r: Result<
    Vec<Vec<Span>>,
    HighlightError,
>)
    ensures
        match code_highlighted(code@, *syntaxes, *theme) {
            Ok(v) => r is Ok && line_span_values(r->Ok_0@) == v,
            Err(HighlightError::NoRustSyntax) => r matches Err(HighlightError::NoRustSyntax),
            Err(HighlightError::Highlighting) => r matches Err(HighlightError::Highlighting),
        },
        r is Ok ==> r->Ok_0@.len() == line_pieces(code@).len() && forall|k: int|
            0 <= k < r->Ok_0@.len() ==> span_texts(#[trigger] r->Ok_0@[k]@) == line_pieces(
                code@,
            )[k],
{
    let syntax = match find_syntax(syntaxes, "Rust") {
        Some(s) => s,
        None => {
            proof {
                reveal_strlit("Rust");
                assert("Rust"@ =~= rust_name());
            }
            return Err(HighlightError::NoRustSyntax);
        },
    };
    proof {
        reveal_strlit("Rust");
        assert("Rust"@ =~= rust_name());
    }
    let mut h = new_highlighter(syntax, theme);
    let pieces = split_with_endings(&text::chars_of(code));
    let ghost lines = line_pieces(code@);
    let ghost h0 = fresh_highlighter(*syntax, *theme);
    let mut out: Vec<Vec<Span>> = Vec::new();
    let mut k: usize = 0;
    assert(line_span_values(out@) =~= Seq::empty());
    while k < pieces.len()
        invariant
            k <= pieces.len(),
            text::views(pieces@) == lines,
            lines == line_pieces(code@),
            syntax_found(*syntaxes, rust_name()) == Some(*syntax),
            h0 == fresh_highlighter(*syntax, *theme),
            out@.len() == k,
            forall|t: int| 0 <= t < k ==> span_texts(#[trigger] out@[t]@) == line_pieces(code@)[t],
            lines_highlighted(h0, lines, *syntaxes, k as nat).0 == Some(line_span_values(out@)),
            h == lines_highlighted(h0, lines, *syntaxes, k as nat).1,
        decreases pieces.len() - k,
    {
        let line = text::string_of(&pieces[k]);
        assert(pieces@[k as int]@ == lines[k as int]);
        match highlight_line(&mut h, line.as_str(), syntaxes) {
            Ok(spans) => {
                let ghost before = out@;
                out.push(spans);
                assert(line_span_values(out@) =~= line_span_values(before).push(
                    span_values(spans@),
                ));
            },
            Err(_) => {
                proof {
                    assert(lines_highlighted(h0, lines, *syntaxes, (k + 1) as nat).0 is None);
                    lemma_failed_stays_failed(h0, lines, *syntaxes, (k + 1) as nat, lines.len());
                }
                return Err(HighlightError::Highlighting);
            },
        }
        k = k + 1;
    }
    Ok(out)
}

/// Once a line fails, highlighting more lines still fails.
proof fn lemma_failed_stays_failed(
    h0: HighlightLines<'static>,
    lines: Seq<Seq<char>>,
    set: SyntaxSet,
    k: nat,
    n: nat,
)
    requires
        k <= n,
        lines_highlighted(h0, lines, set, k).0 is None,
    ensures
        lines_highlighted(h0, lines, set, n).0 is None,
    decreases n - k,
{
    if k < n {
        lemma_failed_stays_failed(h0, lines, set, k, (n - 1) as nat);
    }
}

/// The escaped spans of a line, one after the other.
pub open spec fn escaped_spans(spans: Seq<Span>) -> Seq<char>
    decreases spans.len(),
{
    if spans.len() == 0 {
        Seq::empty()
    } else {
        escaped_spans(spans.drop_last()) + escaped(
            spans.last().foreground@,
            spans.last().background@,
            spans.last().text@,
        )
    }
}

/// A highlighted line as the terminal shows it at nesting depth `d`: the
/// indentation, three spaces, then the escaped spans.
pub open spec fn rendered_line(d: nat, spans: Seq<Span>) -> Seq<char> {
    display::indent_text(d) + seq![' ', ' ', ' '] + escaped_spans(spans)
}

/// The text that shows one highlighted line at the current nesting depth.
pub fn render_line(path: &StepPath, spans: &Vec<Span>) -> (r: String)
    requires
        path@.len() <= usize::MAX / 3 + 1,
    ensures
        r@ == rendered_line(path@.len(), spans@),
{
    let mut out: Vec<char> = text::chars_of(display::step_indent(path).as_str());
    out.push(' ');
    out.push(' ');
    out.push(' ');
    let ghost lead = out@;
    let mut k: usize = 0;
    while k < spans.len()
        invariant
            k <= spans@.len(),
            out@ == lead + escaped_spans(spans@.take(k as int)),
        decreases spans@.len() - k,
    {
        let piece = terminal_escaped(&spans[k], spans[k].text.as_str());
        text::append_chars(&mut out, &text::chars_of(piece.as_str()));
        assert(spans@.take(k + 1).drop_last() == spans@.take(k as int));
        k = k + 1;
    }
    assert(spans@.take(spans@.len() as int) == spans@);
    assert(lead == display::indent_text(path@.len()) + seq![' ', ' ', ' ']);
    text::string_of(&out)
}

/// Highlighted lines, each rendered at nesting depth `d`, one after another.
pub open spec fn rendered_code(d: nat, lines: Seq<Vec<Span>>) -> Seq<char>
    decreases lines.len(),
{
    if lines.len() == 0 {
        Seq::empty()
    } else {
        rendered_code(d, lines.drop_last()) + rendered_line(d, lines.last()@)
    }
}

/// The text that shows highlighted code at the current nesting depth: each
/// line rendered as [`render_line`] does, one after another.
pub fn render_code(path: &StepPath, lines: &Vec<Vec<Span>>) -> (r: String)
    requires
        path@.len() <= usize::MAX / 3 + 1,
    ensures
        r@ == rendered_code(path@.len(), lines@),
{
    let mut out: Vec<char> = Vec::new();
    let mut k: usize = 0;
    while k < lines.len()
        invariant
            k <= lines@.len(),
            path@.len() <= usize::MAX / 3 + 1,
            out@ == rendered_code(path@.len(), lines@.take(k as int)),
        decreases lines@.len() - k,
    {
        let line = render_line(path, &lines[k]);
        text::append_chars(&mut out, &text::chars_of(line.as_str()));
        assert(lines@.take(k + 1).drop_last() == lines@.take(k as int));
        k = k + 1;
    }
    assert(lines@.take(lines@.len() as int) == lines@);
    text::string_of(&out)
}

// ──────────────────────────────── typewriter ────────────────────────────────

/// Each character of `spans`, escaped on its own in its span's colors, in
/// order: what typewriter mode prints one at a time.
pub open spec fn typed_chars(spans: Seq<Span>) -> Seq<Seq<char>>
    decreases spans.len(),
{
    if spans.len() == 0 {
        Seq::empty()
    } else {
        let last = spans.last();
        typed_chars(spans.drop_last()) + Seq::new(
            last.text@.len(),
            |c: int| escaped(last.foreground@, last.background@, seq![last.text@[c]]),
        )
    }
}

/// The escaped characters of a line, one string per character, for
/// typewriter display.
pub fn typewriter_chars(spans: &Vec<Span>) -> (r: Vec<String>)
    ensures
        r@.len() == typed_chars(spans@).len(),
        forall|k: int| 0 <= k < r@.len() ==> #[trigger] r@[k]@ == typed_chars(spans@)[k],
{
    let mut r: Vec<String> = Vec::new();
    let mut i: usize = 0;
    while i < spans.len()
        invariant
            i <= spans@.len(),
            r@.len() == typed_chars(spans@.take(i as int)).len(),
            forall|k: int|
                0 <= k < r@.len() ==> #[trigger] r@[k]@ == typed_chars(spans@.take(i as int))[k],
        decreases spans@.len() - i,
    {
        let span = &spans[i];
        let cs = text::chars_of(span.text.as_str());
        let ghost base = typed_chars(spans@.take(i as int));
        let ghost extra = Seq::new(
            span.text@.len(),
            |c: int| escaped(span.foreground@, span.background@, seq![span.text@[c]]),
        );
        assert(spans@.take(i + 1).drop_last() == spans@.take(i as int));
        assert(typed_chars(spans@.take(i + 1)) == base + extra);
        let mut c: usize = 0;
        while c < cs.len()
            invariant
                c <= cs@.len(),
                cs@ == span.text@,
                extra == Seq::new(
                    span.text@.len(),
                    |c: int| escaped(span.foreground@, span.background@, seq![span.text@[c]]),
                ),
                r@.len() == base.len() + c,
                forall|k: int| 0 <= k < r@.len() ==> #[trigger] r@[k]@ == (base + extra)[k],
            decreases cs@.len() - c,
        {
            let one = text::string_of(&vec![cs[c]]);
            let ghost before = r@;
            r.push(terminal_escaped(span, one.as_str()));
            proof {
                assert(one@ == seq![span.text@[c as int]]);
                assert(r@[before.len() as int]@ == extra[c as int]);
                assert(r@[before.len() as int]@ == (base + extra)[base.len() + c]);
                assert forall|k: int| 0 <= k < r@.len() implies #[trigger] r@[k]@ == (base
                    + extra)[k] by {
                    if k < before.len() {
                        assert(r@[k] == before[k]);
                    }
                }
            }
            c = c + 1;
        }
        i = i + 1;
    }
    assert(spans@.take(spans@.len() as int) == spans@);
    r
}

/// The span that holds character `k` of the spans from `i` on, and the
/// character's index within that span's text.
pub open spec fn locate(spans: Seq<Span>, i: int, k: int) -> (int, int)
    decreases spans.len() - i,
{
    if i < 0 || i >= spans.len() {
        (i, k)
    } else if k < spans[i].text@.len() {
        (i, k)
    } else {
        locate(spans, i + 1, k - spans[i].text@.len())
    }
}

/// The rest of a line once Enter is pressed while typing it, after `k`
/// characters were typed: the rest of the current span's text in one
/// escape, then every later span.
pub open spec fn fast_forward_spec(spans: Seq<Span>, k: int) -> Seq<char> {
    let (i, pos) = locate(spans, 0, k);
    escaped(spans[i].foreground@, spans[i].background@, spans[i].text@.skip(pos))
        + escaped_spans_from(spans, i + 1)
}

/// The escaped spans from index `i` on.
pub open spec fn escaped_spans_from(spans: Seq<Span>, i: int) -> Seq<char>
    decreases spans.len() - i,
{
    if i < 0 || i >= spans.len() {
        Seq::empty()
    } else {
        escaped(spans[i].foreground@, spans[i].background@, spans[i].text@) + escaped_spans_from(
            spans,
            i + 1,
        )
    }
}

/// The total number of characters in the spans from `i` on.
pub open spec fn chars_from(spans: Seq<Span>, i: int) -> int
    decreases spans.len() - i,
{
    if i < 0 || i >= spans.len() {
        0
    } else {
        spans[i].text@.len() + chars_from(spans, i + 1)
    }
}

/// Where character `k` of the spans lies: the span and the index within
/// its text, or `None` when the spans hold no more than `k` characters.
fn locate_exec(spans: &Vec<Span>, k: usize) -> (r: Option<(usize, usize)>)
    ensures
        match r {
            Some((i, pos)) => {
                &&& k < chars_from(spans@, 0)
                &&& locate(spans@, 0, k as int) == (i as int, pos as int)
                &&& i < spans@.len()
                &&& pos < spans@[i as int].text@.len()
            },
            None => k >= chars_from(spans@, 0),
        },
{
    let mut i: usize = 0;
    let mut rem: usize = k;
    while i < spans.len()
        invariant
            i <= spans@.len(),
            rem <= k,
            locate(spans@, i as int, rem as int) == locate(spans@, 0, k as int),
            k == chars_from(spans@, 0) - chars_from(spans@, i as int) + rem,
        decreases spans@.len() - i,
    {
        let n = text::chars_of(spans[i].text.as_str()).len();
        if rem < n {
            proof {
                lemma_chars_from_nonneg(spans@, i + 1);
            }
            return Some((i, rem));
        }
        rem = rem - n;
        i = i + 1;
    }
    None
}

/// What typewriter mode prints at once when Enter is pressed after `k`
/// characters of the line were typed: the rest of the current span, then
/// every later span, each in its colors.
pub fn fast_forward(spans: &Vec<Span>, k: usize) -> (r: String)
    requires
        k < chars_from(spans@, 0),
    ensures
        r@ == fast_forward_spec(spans@, k as int),
{
    let (i, rem) = match locate_exec(spans, k) {
        Some(p) => p,
        None => vstd::pervasive::unreached(),
    };
    assert(i < spans.len());
    let cs = text::chars_of(spans[i].text.as_str());
    let tail = text::string_of(&text::slice_vec(&cs, rem, cs.len()));
    let first = terminal_escaped(&spans[i], tail.as_str());
    let mut out = text::chars_of(first.as_str());
    let mut j: usize = i + 1;
    proof {
        assert(cs@.subrange(rem as int, cs@.len() as int) == spans@[i as int].text@.skip(
            rem as int,
        ));
    }
    let ghost lead = out@;
    while j < spans.len()
        invariant
            i + 1 <= j <= spans@.len(),
            lead + escaped_spans_from(spans@, i + 1) == out@ + escaped_spans_from(
                spans@,
                j as int,
            ),
        decreases spans@.len() - j,
    {
        let piece = terminal_escaped(&spans[j], spans[j].text.as_str());
        text::append_chars(&mut out, &text::chars_of(piece.as_str()));
        j = j + 1;
    }
    text::string_of(&out)
}

/// What typewriter mode does next on a line after typing `k` of its
/// characters.
pub enum TypewriterAction {
    /// Print the next character's piece, then wait the character delay.
    Type(String),
    /// Enter was pressed: print the rest of the line at once and go on to
    /// the next line without the line pause.
    FastForward(String),
    /// The line is typed out: wait the line pause (Enter cuts it short).
    EndLine,
}

/// The typewriter's decision after `k` characters of the line were typed,
/// where `enter` tells whether Enter was pressed since: past the last
/// character the line ends; otherwise Enter prints the rest of the line at
/// once, and without it the next character is typed.
pub fn typewriter_step(spans: &Vec<Span>, k: usize, enter: bool) -> (a: TypewriterAction)
    ensures
        k >= typed_chars(spans@).len() ==> a is EndLine,
        k < typed_chars(spans@).len() && enter ==> a is FastForward && a->FastForward_0@
            == fast_forward_spec(spans@, k as int),
        k < typed_chars(spans@).len() && !enter ==> a is Type && a->Type_0@ == typed_chars(
            spans@,
        )[k as int],
{
    proof {
        lemma_typed_len(spans@);
    }
    match locate_exec(spans, k) {
        None => TypewriterAction::EndLine,
        Some((i, pos)) => if enter {
            TypewriterAction::FastForward(fast_forward(spans, k))
        } else {
            proof {
                lemma_typed_at(spans@, k as int);
            }
            let cs = text::chars_of(spans[i].text.as_str());
            let one = text::string_of(&vec![cs[pos]]);
            assert(one@ == seq![spans@[i as int].text@[pos as int]]);
            TypewriterAction::Type(terminal_escaped(&spans[i], one.as_str()))
        },
    }
}

// ──────────────────────────────────── laws ────────────────────────────────────

/// `s` with its terminal escape sequences (from `\x1b` up to and including
/// the next `m`) taken out: the text that the terminal shows.
pub open spec fn shown_text(s: Seq<char>) -> Seq<char>
    decreases s.len(),
{
    if s.len() == 0 {
        Seq::empty()
    } else if s[0] == '\x1b' {
        let j = text::find_char_from(s, 'm', 0);
        if j < s.len() {
            proof {
                text::lemma_find_char_bounds(s, 'm', 0);
            }
            shown_text(s.skip(j + 1))
        } else {
            Seq::empty()
        }
    } else {
        seq![s[0]] + shown_text(s.drop_first())
    }
}

/// Whether `s` holds no escape character.
pub open spec fn no_escape(s: Seq<char>) -> bool {
    forall|k: int| 0 <= k < s.len() ==> #[trigger] s[k] != '\x1b'
}

proof fn lemma_decimal_no_m(n: nat)
    ensures
        forall|k: int| 0 <= k < decimal(n).len() ==> #[trigger] decimal(n)[k] != 'm',
    decreases n,
{
    if n >= 10 {
        lemma_decimal_no_m(n / 10);
        assert forall|k: int| 0 <= k < decimal(n).len() implies #[trigger] decimal(n)[k] != 'm' by {
            if k < decimal(n / 10).len() {
                assert(decimal(n)[k] == decimal(n / 10)[k]);
            }
        }
    }
}

proof fn lemma_shown_plain(t: Seq<char>, rest: Seq<char>)
    requires
        no_escape(t),
    ensures
        shown_text(t + rest) == t + shown_text(rest),
    decreases t.len(),
{
    if t.len() > 0 {
        assert((t + rest)[0] == t[0]);
        assert((t + rest).drop_first() == t.drop_first() + rest);
        assert forall|k: int| 0 <= k < t.drop_first().len() implies #[trigger] t.drop_first()[k]
            != '\x1b' by {
            assert(t.drop_first()[k] == t[k + 1]);
        }
        lemma_shown_plain(t.drop_first(), rest);
        assert(t == seq![t[0]] + t.drop_first());
    } else {
        assert(t + rest == rest);
    }
}

/// The characters of an escape before its closing `m`.
pub open spec fn escape_body(fg: Seq<u8>, bg: Seq<u8>) -> Seq<char> {
    seq!['[', '3', '8', ';', '2', ';'] + decimal(blend(fg, bg, 0)) + seq![';'] + decimal(
        blend(fg, bg, 1),
    ) + seq![';'] + decimal(blend(fg, bg, 2))
}

proof fn lemma_escape_body_no_m(fg: Seq<u8>, bg: Seq<u8>)
    ensures
        forall|k: int|
            0 <= k < escape_body(fg, bg).len() ==> #[trigger] escape_body(fg, bg)[k] != 'm',
{
    let d0 = decimal(blend(fg, bg, 0));
    let d1 = decimal(blend(fg, bg, 1));
    let d2 = decimal(blend(fg, bg, 2));
    lemma_decimal_no_m(blend(fg, bg, 0));
    lemma_decimal_no_m(blend(fg, bg, 1));
    lemma_decimal_no_m(blend(fg, bg, 2));
    let p = seq!['[', '3', '8', ';', '2', ';'];
    let b = escape_body(fg, bg);
    assert forall|k: int| 0 <= k < b.len() implies #[trigger] b[k] != 'm' by {
        if k < 6 {
            assert(b[k] == p[k]);
        } else if k < 6 + d0.len() {
            assert(b[k] == d0[k - 6]);
        } else if k < 7 + d0.len() {
            assert(b[k] == ';');
        } else if k < 7 + d0.len() + d1.len() {
            assert(b[k] == d1[k - 7 - d0.len()]);
        } else if k < 8 + d0.len() + d1.len() {
            assert(b[k] == ';');
        } else {
            assert(b[k] == d2[k - 8 - d0.len() - d1.len()]);
        }
    }
}

proof fn lemma_shown_escaped(fg: Seq<u8>, bg: Seq<u8>, t: Seq<char>, rest: Seq<char>)
    requires
        no_escape(t),
    ensures
        shown_text(escaped(fg, bg, t) + rest) == t + shown_text(rest),
{
    let body = escape_body(fg, bg);
    let s = escaped(fg, bg, t) + rest;
    assert(escaped(fg, bg, t) == seq!['\x1b'] + body + seq!['m'] + t);
    assert(s == seq!['\x1b'] + body + seq!['m'] + (t + rest));
    lemma_escape_body_no_m(fg, bg);
    let j: int = 1 + body.len() as int;
    assert(s[0] == '\x1b');
    assert(s[j] == 'm');
    assert forall|k: int| 0 <= k < j implies #[trigger] s[k] != 'm' by {
        if k > 0 {
            assert(s[k] == body[k - 1]);
        }
    }
    text::lemma_find_char_bounds(s, 'm', 0);
    assert(text::find_char_from(s, 'm', 0) == j);
    assert(s.skip(j + 1) == t + rest);
    lemma_shown_plain(t, rest);
}

/// Whether no span text holds an escape character.
pub open spec fn spans_plain(spans: Seq<Span>) -> bool {
    forall|k: int| 0 <= k < spans.len() ==> no_escape(#[trigger] spans[k].text@)
}

proof fn lemma_shown_spans(spans: Seq<Span>, rest: Seq<char>)
    requires
        spans_plain(spans),
    ensures
        shown_text(escaped_spans(spans) + rest) == span_texts(spans) + shown_text(rest),
    decreases spans.len(),
{
    if spans.len() == 0 {
        assert(escaped_spans(spans) + rest == rest);
        assert(span_texts(spans) + shown_text(rest) == shown_text(rest));
    } else {
        let last = spans.last();
        let init = spans.drop_last();
        assert(spans_plain(init)) by {
            assert forall|k: int| 0 <= k < init.len() implies no_escape(#[trigger] init[k].text@) by {
                assert(init[k] == spans[k]);
            }
        }
        assert(no_escape(last.text@)) by {
            assert(last == spans[spans.len() - 1]);
        }
        let e = escaped(last.foreground@, last.background@, last.text@);
        assert(escaped_spans(spans) + rest == escaped_spans(init) + (e + rest));
        lemma_shown_spans(init, e + rest);
        lemma_shown_escaped(last.foreground@, last.background@, last.text@, rest);
        assert(span_texts(init) + (last.text@ + shown_text(rest)) == span_texts(spans) + shown_text(
            rest,
        ));
    }
}

/// Highlighting only adds color: with its escape sequences taken out, a
/// rendered line shows the indentation, three spaces and the line's text,
/// unchanged (for text that holds no escape character itself).
pub proof fn law_rendered_line_shows_code(d: nat, spans: Seq<Span>)
    requires
        spans_plain(spans),
    ensures
        shown_text(rendered_line(d, spans)) == display::indent_text(d) + seq![' ', ' ', ' ']
            + span_texts(spans),
{
    let lead = display::indent_text(d) + seq![' ', ' ', ' '];
    assert forall|k: int| 0 <= k < lead.len() implies #[trigger] lead[k] != '\x1b' by {
        if k < display::indent_text(d).len() {
            assert(lead[k] == ' ');
        }
    }
    lemma_shown_spans(spans, Seq::empty());
    assert(escaped_spans(spans) + Seq::<char>::empty() == escaped_spans(spans));
    assert(shown_text(Seq::<char>::empty()) == Seq::<char>::empty());
    lemma_shown_plain(lead, escaped_spans(spans));
    assert(span_texts(spans) + Seq::<char>::empty() == span_texts(spans));
}

proof fn lemma_flatten_alt_concat(a: Seq<Seq<char>>, b: Seq<Seq<char>>)
    ensures
        (a + b).flatten_alt() == a.flatten_alt() + b.flatten_alt(),
    decreases b.len(),
{
    if b.len() == 0 {
        assert(a + b == a);
        assert(a.flatten_alt() + Seq::<char>::empty() == a.flatten_alt());
    } else {
        lemma_flatten_alt_concat(a, b.drop_last());
        assert((a + b).drop_last() == a + b.drop_last());
        assert((a + b).last() == b.last());
    }
}

/// The typewriter pieces of one span's text `t`.
pub open spec fn typed_text(fg: Seq<u8>, bg: Seq<u8>, t: Seq<char>) -> Seq<Seq<char>> {
    Seq::new(t.len(), |c: int| escaped(fg, bg, seq![t[c]]))
}

proof fn lemma_shown_typed_text(fg: Seq<u8>, bg: Seq<u8>, t: Seq<char>, rest: Seq<char>)
    requires
        no_escape(t),
    ensures
        shown_text(typed_text(fg, bg, t).flatten_alt() + rest) == t + shown_text(rest),
    decreases t.len(),
{
    if t.len() == 0 {
        assert(typed_text(fg, bg, t).flatten_alt() + rest == rest);
        assert(t + shown_text(rest) == shown_text(rest));
    } else {
        let init = t.drop_last();
        let x = t.last();
        assert(no_escape(init)) by {
            assert forall|k: int| 0 <= k < init.len() implies #[trigger] init[k] != '\x1b' by {
                assert(init[k] == t[k]);
            }
        }
        assert(no_escape(seq![x])) by {
            assert(t[t.len() - 1] != '\x1b');
        }
        assert(typed_text(fg, bg, t).drop_last() == typed_text(fg, bg, init));
        let e = escaped(fg, bg, seq![x]);
        assert(typed_text(fg, bg, t).flatten_alt() + rest == typed_text(fg, bg, init).flatten_alt()
            + (e + rest));
        lemma_shown_typed_text(fg, bg, init, e + rest);
        lemma_shown_escaped(fg, bg, seq![x], rest);
        assert(init + (seq![x] + shown_text(rest)) == t + shown_text(rest));
    }
}

proof fn lemma_shown_typed(spans: Seq<Span>, rest: Seq<char>)
    requires
        spans_plain(spans),
    ensures
        shown_text(typed_chars(spans).flatten_alt() + rest) == span_texts(spans) + shown_text(rest),
    decreases spans.len(),
{
    if spans.len() == 0 {
        assert(typed_chars(spans).flatten_alt() + rest == rest);
        assert(span_texts(spans) + shown_text(rest) == shown_text(rest));
    } else {
        let last = spans.last();
        let init = spans.drop_last();
        assert(spans_plain(init)) by {
            assert forall|k: int| 0 <= k < init.len() implies no_escape(#[trigger] init[k].text@) by {
                assert(init[k] == spans[k]);
            }
        }
        assert(no_escape(last.text@)) by {
            assert(last == spans[spans.len() - 1]);
        }
        let pieces = typed_text(last.foreground@, last.background@, last.text@);
        assert(typed_chars(spans) == typed_chars(init) + pieces);
        lemma_flatten_alt_concat(typed_chars(init), pieces);
        assert(typed_chars(spans).flatten_alt() + rest == typed_chars(init).flatten_alt() + (
        pieces.flatten_alt() + rest));
        lemma_shown_typed(init, pieces.flatten_alt() + rest);
        lemma_shown_typed_text(last.foreground@, last.background@, last.text@, rest);
        assert(span_texts(init) + (last.text@ + shown_text(rest)) == span_texts(spans) + shown_text(
            rest,
        ));
    }
}

/// Typewriter display shows the same text: its pieces, printed one after
/// the other with their escape sequences taken out, are the line's text
/// (for text that holds no escape character itself).
pub proof fn law_typewriter_shows_code(spans: Seq<Span>)
    requires
        spans_plain(spans),
    ensures
        shown_text(typed_chars(spans).flatten_alt()) == span_texts(spans),
{
    lemma_shown_typed(spans, Seq::empty());
    assert(typed_chars(spans).flatten_alt() + Seq::<char>::empty() == typed_chars(
        spans,
    ).flatten_alt());
    assert(shown_text(Seq::<char>::empty()) == Seq::<char>::empty());
    assert(span_texts(spans) + Seq::<char>::empty() == span_texts(spans));
}

proof fn lemma_chars_from_nonneg(spans: Seq<Span>, i: int)
    ensures
        chars_from(spans, i) >= 0,
    decreases spans.len() - i,
{
    if 0 <= i < spans.len() {
        lemma_chars_from_nonneg(spans, i + 1);
    }
}

/// The typewriter pieces of the spans from `i` on.
pub open spec fn typed_from(spans: Seq<Span>, i: int) -> Seq<Seq<char>>
    decreases spans.len() - i,
{
    if i < 0 || i >= spans.len() {
        Seq::empty()
    } else {
        typed_text(spans[i].foreground@, spans[i].background@, spans[i].text@) + typed_from(
            spans,
            i + 1,
        )
    }
}

proof fn lemma_typed_split(spans: Seq<Span>, i: int)
    requires
        0 <= i <= spans.len(),
    ensures
        typed_chars(spans.take(i)) + typed_from(spans, i) == typed_chars(spans),
    decreases spans.len() - i,
{
    if i == spans.len() {
        assert(spans.take(i) == spans);
        assert(typed_chars(spans) + Seq::<Seq<char>>::empty() == typed_chars(spans));
    } else {
        lemma_typed_split(spans, i + 1);
        let t = typed_text(spans[i].foreground@, spans[i].background@, spans[i].text@);
        assert(spans.take(i + 1).drop_last() == spans.take(i));
        assert(spans.take(i + 1).last() == spans[i]);
        assert(typed_chars(spans.take(i + 1)) == typed_chars(spans.take(i)) + t);
        assert(typed_chars(spans.take(i)) + (t + typed_from(spans, i + 1)) == typed_chars(
            spans.take(i),
        ) + t + typed_from(spans, i + 1));
    }
}

proof fn lemma_typed_from_len(spans: Seq<Span>, i: int)
    requires
        0 <= i,
    ensures
        typed_from(spans, i).len() == chars_from(spans, i),
    decreases spans.len() - i,
{
    if i < spans.len() {
        lemma_typed_from_len(spans, i + 1);
    }
}

proof fn lemma_typed_len(spans: Seq<Span>)
    ensures
        typed_chars(spans).len() == chars_from(spans, 0),
        typed_chars(spans) == typed_from(spans, 0),
{
    lemma_typed_split(spans, 0);
    assert(spans.take(0) =~= Seq::<Span>::empty());
    assert(Seq::<Seq<char>>::empty() + typed_from(spans, 0) == typed_from(spans, 0));
    lemma_typed_from_len(spans, 0);
}

proof fn lemma_locate(spans: Seq<Span>, j: int, r: int)
    requires
        0 <= j <= spans.len(),
        0 <= r < chars_from(spans, j),
    ensures
        j <= locate(spans, j, r).0 < spans.len(),
        0 <= locate(spans, j, r).1 < spans[locate(spans, j, r).0].text@.len(),
        r == chars_from(spans, j) - chars_from(spans, locate(spans, j, r).0) + locate(
            spans,
            j,
            r,
        ).1,
    decreases spans.len() - j,
{
    if r >= spans[j].text@.len() {
        lemma_locate(spans, j + 1, r - spans[j].text@.len());
    }
}

/// Where character `k` of a line lies, the typed pieces up to it are those
/// of the spans before, then those of the characters before it in its span.
proof fn lemma_typed_at(spans: Seq<Span>, k: int)
    requires
        0 <= k < chars_from(spans, 0),
    ensures
        ({
            let (i, pos) = locate(spans, 0, k);
            let sp = spans[i];
            &&& typed_chars(spans).take(k) == typed_chars(spans.take(i)) + typed_text(
                sp.foreground@,
                sp.background@,
                sp.text@.take(pos),
            )
            &&& typed_chars(spans)[k] == escaped(sp.foreground@, sp.background@, seq![sp.text@[pos]])
        }),
{
    lemma_locate(spans, 0, k);
    let (i, pos) = locate(spans, 0, k);
    let sp = spans[i];
    lemma_typed_split(spans, i);
    lemma_typed_len(spans);
    lemma_typed_from_len(spans, i);
    let a = typed_chars(spans.take(i));
    let t = typed_text(sp.foreground@, sp.background@, sp.text@);
    let b = typed_from(spans, i + 1);
    assert(typed_from(spans, i) == t + b);
    assert(typed_chars(spans) == a + t + b);
    assert(a.len() == k - pos);
    assert(typed_chars(spans).take(k) =~= a + typed_text(
        sp.foreground@,
        sp.background@,
        sp.text@.take(pos),
    ));
    assert(typed_chars(spans)[k] == t[pos]);
}

proof fn lemma_escaped_spans_cons(x: Span, b: Seq<Span>)
    ensures
        escaped_spans(seq![x] + b) == escaped(x.foreground@, x.background@, x.text@)
            + escaped_spans(b),
    decreases b.len(),
{
    let e = escaped(x.foreground@, x.background@, x.text@);
    if b.len() == 0 {
        assert(seq![x] + b == seq![x]);
        assert(seq![x].drop_last() =~= Seq::<Span>::empty());
        assert(seq![x].last() == x);
        assert(escaped_spans(Seq::<Span>::empty()) == Seq::<char>::empty());
        assert(escaped_spans(seq![x]) == escaped_spans(Seq::<Span>::empty()) + e);
        assert(Seq::<char>::empty() + e == e);
        assert(e + Seq::<char>::empty() == e);
    } else {
        lemma_escaped_spans_cons(x, b.drop_last());
        assert((seq![x] + b).drop_last() == seq![x] + b.drop_last());
        assert((seq![x] + b).last() == b.last());
        let l = b.last();
        let el = escaped(l.foreground@, l.background@, l.text@);
        assert(escaped_spans(seq![x] + b) == e + escaped_spans(b.drop_last()) + el);
        assert(escaped_spans(b) == escaped_spans(b.drop_last()) + el);
        assert(e + escaped_spans(b.drop_last()) + el == e + (escaped_spans(b.drop_last()) + el));
    }
}

proof fn lemma_escaped_from(spans: Seq<Span>, j: int)
    requires
        0 <= j <= spans.len(),
    ensures
        escaped_spans_from(spans, j) == escaped_spans(spans.skip(j)),
    decreases spans.len() - j,
{
    if j == spans.len() {
        assert(spans.skip(j) =~= Seq::<Span>::empty());
    } else {
        lemma_escaped_from(spans, j + 1);
        assert(spans.skip(j) == seq![spans[j]] + spans.skip(j + 1));
        lemma_escaped_spans_cons(spans[j], spans.skip(j + 1));
    }
}

proof fn lemma_span_texts_concat(a: Seq<Span>, b: Seq<Span>)
    ensures
        span_texts(a + b) == span_texts(a) + span_texts(b),
    decreases b.len(),
{
    if b.len() == 0 {
        assert(a + b == a);
        assert(span_texts(a) + Seq::<char>::empty() == span_texts(a));
    } else {
        lemma_span_texts_concat(a, b.drop_last());
        assert((a + b).drop_last() == a + b.drop_last());
        assert((a + b).last() == b.last());
    }
}

/// Pressing Enter while a line is typed out shows the same line: the pieces
/// typed so far, then what [`fast_forward`] prints, show the line's text once
/// the escape sequences are taken out (for text that holds no escape
/// character itself).
pub proof fn law_fast_forward_completes_line(spans: Seq<Span>, k: int)
    requires
        spans_plain(spans),
        0 <= k < chars_from(spans, 0),
    ensures
        shown_text(typed_chars(spans).take(k).flatten_alt() + fast_forward_spec(spans, k))
            == span_texts(spans),
{
    lemma_locate(spans, 0, k);
    lemma_typed_at(spans, k);
    let (i, pos) = locate(spans, 0, k);
    let sp = spans[i];
    let t = sp.text@;
    let fg = sp.foreground@;
    let bg = sp.background@;
    let head = spans.take(i);
    let tail = spans.skip(i + 1);
    assert(spans_plain(head)) by {
        assert forall|q: int| 0 <= q < head.len() implies no_escape(#[trigger] head[q].text@) by {
            assert(head[q] == spans[q]);
        }
    }
    assert(spans_plain(tail)) by {
        assert forall|q: int| 0 <= q < tail.len() implies no_escape(#[trigger] tail[q].text@) by {
            assert(tail[q] == spans[i + 1 + q]);
        }
    }
    assert(no_escape(t));
    assert(no_escape(t.take(pos))) by {
        assert forall|q: int| 0 <= q < t.take(pos).len() implies #[trigger] t.take(pos)[q]
            != '\x1b' by {
            assert(t.take(pos)[q] == t[q]);
        }
    }
    assert(no_escape(t.skip(pos))) by {
        assert forall|q: int| 0 <= q < t.skip(pos).len() implies #[trigger] t.skip(pos)[q]
            != '\x1b' by {
            assert(t.skip(pos)[q] == t[pos + q]);
        }
    }
    let typed = typed_text(fg, bg, t.take(pos));
    lemma_flatten_alt_concat(typed_chars(head), typed);
    let rest = escaped_spans_from(spans, i + 1);
    let ff = fast_forward_spec(spans, k);
    assert(ff == escaped(fg, bg, t.skip(pos)) + rest);
    assert(typed_chars(spans).take(k).flatten_alt() + ff == typed_chars(head).flatten_alt() + (
    typed.flatten_alt() + ff));
    lemma_shown_typed(head, typed.flatten_alt() + ff);
    lemma_shown_typed_text(fg, bg, t.take(pos), ff);
    lemma_shown_escaped(fg, bg, t.skip(pos), rest);
    lemma_escaped_from(spans, i + 1);
    lemma_shown_spans(tail, Seq::empty());
    assert(escaped_spans(tail) + Seq::<char>::empty() == escaped_spans(tail));
    assert(shown_text(Seq::<char>::empty()) == Seq::<char>::empty());
    assert(spans.take(i + 1).drop_last() == head);
    assert(spans.take(i + 1).last() == sp);
    assert(spans == spans.take(i + 1) + tail);
    lemma_span_texts_concat(spans.take(i + 1), tail);
    assert(t.take(pos) + t.skip(pos) == t);
    assert(span_texts(head) + (t.take(pos) + (t.skip(pos) + (span_texts(tail)
        + Seq::<char>::empty()))) == span_texts(spans));
}

/// Code as the terminal shows it at nesting depth `d`: each of its lines
/// (with its ending) after the indentation and three spaces.
pub open spec fn shown_code(d: nat, lines: Seq<Seq<char>>) -> Seq<char>
    decreases lines.len(),
{
    if lines.len() == 0 {
        Seq::empty()
    } else {
        shown_code(d, lines.drop_last()) + display::indent_text(d) + seq![' ', ' ', ' ']
            + lines.last()
    }
}

proof fn lemma_shown_rendered_code(d: nat, lines: Seq<Vec<Span>>, rest: Seq<char>)
    requires
        forall|k: int| 0 <= k < lines.len() ==> spans_plain(#[trigger] lines[k]@),
    ensures
        shown_text(rendered_code(d, lines) + rest) == shown_code(
            d,
            Seq::new(lines.len(), |k: int| span_texts(lines[k]@)),
        ) + shown_text(rest),
    decreases lines.len(),
{
    let texts = Seq::new(lines.len(), |k: int| span_texts(lines[k]@));
    if lines.len() == 0 {
        assert(rendered_code(d, lines) + rest == rest);
        assert(shown_code(d, texts) + shown_text(rest) == shown_text(rest));
    } else {
        let init = lines.drop_last();
        let last = lines.last()@;
        assert forall|k: int| 0 <= k < init.len() implies spans_plain(#[trigger] init[k]@) by {
            assert(init[k] == lines[k]);
        }
        assert(spans_plain(last)) by {
            assert(lines.last() == lines[lines.len() - 1]);
        }
        let lead = display::indent_text(d) + seq![' ', ' ', ' '];
        assert forall|q: int| 0 <= q < lead.len() implies #[trigger] lead[q] != '\x1b' by {
            if q < display::indent_text(d).len() {
                assert(lead[q] == ' ');
            }
        }
        let e = escaped_spans(last);
        assert(rendered_code(d, lines) + rest == rendered_code(d, init) + (lead + (e + rest)));
        lemma_shown_rendered_code(d, init, lead + (e + rest));
        lemma_shown_plain(lead, e + rest);
        lemma_shown_spans(last, rest);
        let init_texts = Seq::new(init.len(), |k: int| span_texts(init[k]@));
        assert(texts.drop_last() =~= init_texts);
        assert(texts.last() == span_texts(last));
        assert(shown_code(d, init_texts) + (lead + (span_texts(last) + shown_text(rest)))
            == shown_code(d, texts) + shown_text(rest));
    }
}

/// Highlighting only adds color to the whole code: once the escape
/// sequences are taken out, highlighted lines whose span texts make up the
/// lines of `code` (as [`highlight_code`] gives them) show each line of the
/// code after the indentation and three spaces (for code that holds no
/// escape character itself).
pub proof fn law_rendered_code_shows_code(d: nat, lines: Seq<Vec<Span>>, code: Seq<char>)
    requires
        lines.len() == line_pieces(code).len(),
        forall|k: int|
            0 <= k < lines.len() ==> span_texts(#[trigger] lines[k]@) == line_pieces(code)[k],
        forall|k: int| 0 <= k < lines.len() ==> spans_plain(#[trigger] lines[k]@),
    ensures
        shown_text(rendered_code(d, lines)) == shown_code(d, line_pieces(code)),
{
    lemma_shown_rendered_code(d, lines, Seq::empty());
    assert(rendered_code(d, lines) + Seq::<char>::empty() == rendered_code(d, lines));
    assert(shown_text(Seq::<char>::empty()) == Seq::<char>::empty());
    let texts = Seq::new(lines.len(), |k: int| span_texts(lines[k]@));
    assert(texts =~= line_pieces(code));
    assert(shown_code(d, texts) + Seq::<char>::empty() == shown_code(d, texts));
}

} // verus!
