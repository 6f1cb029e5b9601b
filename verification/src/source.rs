//! The source pipeline that turns the raw text of a step block into the
//! string shown in the terminal:
//!
//! ```text
//! dedent → restore_newlines → collapse_continuations → strip_comments
//!        → strip_ignores → strip_waits → strip_nested_steps
//! ```
//!
//! Every stage works on raw characters, independently of any Rust syntax
//! tree. Each stage is specified by a spec function over `Seq<char>` that
//! scans the text from an index, the same way the stage reads it.

use vstd::prelude::*;
use crate::text;

verus! {

// ───────────────────────────── strip_comments ─────────────────────────────

/// The first index at or after `j` where `*/` starts; an index `k` with
/// `k + 1 >= s.len()` when there is none.
pub open spec fn find_block_end(s: Seq<char>, j: int) -> int
    decreases s.len() - j,
{
    if 0 <= j && j + 1 < s.len() && !(s[j] == '*' && s[j + 1] == '/') {
        find_block_end(s, j + 1)
    } else {
        j
    }
}

pub proof fn lemma_find_block_end_bounds(s: Seq<char>, j: int)
    requires
        0 <= j,
    ensures
        j <= find_block_end(s, j),
        find_block_end(s, j) + 1 < s.len() ==> s[find_block_end(s, j)] == '*' && s[find_block_end(
            s,
            j,
        ) + 1] == '/',
        find_block_end(s, j) + 1 >= s.len() ==> find_block_end(s, j) == j || find_block_end(s, j)
            + 1 == s.len(),
    decreases s.len() - j,
{
    if j + 1 < s.len() && !(s[j] == '*' && s[j + 1] == '/') {
        lemma_find_block_end_bounds(s, j + 1);
    }
}

/// The text from index `i` on with `// …` comments reduced to their line
/// ending and `/* … */` comments removed. An unterminated comment removes
/// the rest of the text.
pub open spec fn uncommented_from(s: Seq<char>, i: int) -> Seq<char>
    decreases s.len() - i,
{
    if i < 0 || i >= s.len() {
        Seq::empty()
    } else if i + 1 < s.len() && s[i] == '/' && s[i + 1] == '*' {
        let e = find_block_end(s, i + 2);
        if e + 1 < s.len() {
            proof {
                lemma_find_block_end_bounds(s, i + 2);
            }
            uncommented_from(s, e + 2)
        } else {
            Seq::empty()
        }
    } else if i + 1 < s.len() && s[i] == '/' && s[i + 1] == '/' {
        let e = text::find_char_from(s, '\n', i);
        if e < s.len() {
            proof {
                text::lemma_find_char_bounds(s, '\n', i);
            }
            seq!['\n'] + uncommented_from(s, e + 1)
        } else {
            Seq::empty()
        }
    } else {
        seq![s[i]] + uncommented_from(s, i + 1)
    }
}

/// `s` with its comments stripped.
pub open spec fn uncommented(s: Seq<char>) -> Seq<char> {
    uncommented_from(s, 0)
}

/// Strip `// …` and `/* … */` comments from the source.
///
/// A line comment keeps its line ending, so line counts stay roughly
/// aligned. String literals that hold `//` are not recognised.
pub fn strip_comments(src: &str) -> (r: String)
    ensures
        r@ == uncommented(src@),
{
    let chars = text::chars_of(src);
    let len = chars.len();
    let mut out: Vec<char> = Vec::new();
    let mut i: usize = 0;
    while i < len
        invariant
            len == chars@.len(),
            chars@ == src@,
            i <= len,
            out@ + uncommented_from(chars@, i as int) == uncommented(chars@),
        decreases len - i,
    {
        let ghost prev = out@;
        if i + 1 < len && chars[i] == '/' && chars[i + 1] == '*' {
            let mut e = i + 2;
            while e < len - 1 && !(chars[e] == '*' && chars[e + 1] == '/')
                invariant
                    i + 2 <= e <= len,
                    len == chars@.len(),
                    find_block_end(chars@, e as int) == find_block_end(chars@, i + 2),
                decreases len - e,
            {
                e = e + 1;
            }
            proof {
                lemma_find_block_end_bounds(chars@, i + 2);
            }
            if e < len - 1 {
                i = e + 2;
            } else {
                assert(out@ + uncommented_from(chars@, len as int) == out@);
                i = len;
            }
        } else if i + 1 < len && chars[i] == '/' && chars[i + 1] == '/' {
            let e = text::find_char(&chars, '\n', i);
            if e < len {
                out.push('\n');
                assert(out@ + uncommented_from(chars@, e + 1) == prev + uncommented_from(
                    chars@,
                    i as int,
                ));
                i = e + 1;
            } else {
                assert(out@ + uncommented_from(chars@, len as int) == out@);
                i = len;
            }
        } else {
            out.push(chars[i]);
            assert(out@ + uncommented_from(chars@, i + 1) == prev + uncommented_from(
                chars@,
                i as int,
            ));
            i = i + 1;
        }
    }
    assert(out@ + uncommented_from(chars@, i as int) == out@);
    text::string_of(&out)
}


// ─────────────────────────────── strip_ignores ───────────────────────────────

/// The text of a quoted string whose body starts at `j`, read up to the
/// closing `"`: a backslash takes the next character literally. Returns the
/// index after the closing quote (or the length, if it is missing) and the
/// characters read, appended to `acc`.
pub open spec fn read_quoted(s: Seq<char>, j: int, acc: Seq<char>) -> (int, Seq<char>)
    decreases s.len() - j,
{
    if j < 0 || j >= s.len() {
        (j, acc)
    } else if s[j] == '"' {
        (j + 1, acc)
    } else if s[j] == '\\' && j + 1 < s.len() {
        read_quoted(s, j + 2, acc.push(s[j + 1]))
    } else {
        read_quoted(s, j + 1, acc.push(s[j]))
    }
}

pub proof fn lemma_read_quoted_bounds(s: Seq<char>, j: int, acc: Seq<char>)
    requires
        0 <= j <= s.len(),
    ensures
        j <= read_quoted(s, j, acc).0 <= s.len(),
        j < s.len() ==> j < read_quoted(s, j, acc).0,
    decreases s.len() - j,
{
    if j < s.len() && s[j] != '"' {
        if s[j] == '\\' && j + 1 < s.len() {
            lemma_read_quoted_bounds(s, j + 2, acc.push(s[j + 1]));
        } else {
            lemma_read_quoted_bounds(s, j + 1, acc.push(s[j]));
        }
    }
}

/// Executable [`read_quoted`] with an empty accumulator.
fn read_quoted_exec(v: &Vec<char>, j: usize) -> (r: (usize, Vec<char>))
    requires
        j <= v.len(),
    ensures
        (r.0 as int, r.1@) == read_quoted(v@, j as int, Seq::empty()),
        j <= r.0 <= v.len(),
{
    let mut k = j;
    let mut acc: Vec<char> = Vec::new();
    proof {
        lemma_read_quoted_bounds(v@, j as int, Seq::empty());
    }
    while k < v.len() && v[k] != '"'
        invariant
            j <= k <= v.len(),
            read_quoted(v@, k as int, acc@) == read_quoted(v@, j as int, Seq::empty()),
        decreases v.len() - k,
    {
        if v[k] == '\\' && k + 1 < v.len() {
            acc.push(v[k + 1]);
            k = k + 2;
        } else {
            acc.push(v[k]);
            k = k + 1;
        }
    }
    if k < v.len() {
        k = k + 1;
    }
    (k, acc)
}

/// The tag list of an `ignore!` call, read from `j` inside its parentheses
/// at nesting `depth`: every quoted string is a tag. Returns the index after
/// the closing parenthesis (or the length) and the tags, appended to `tags`.
pub open spec fn tag_scan(s: Seq<char>, j: int, depth: int, tags: Seq<Seq<char>>) -> (
    int,
    Seq<Seq<char>>,
)
    decreases s.len() - j,
{
    if j < 0 || j >= s.len() || depth <= 0 {
        (j, tags)
    } else if s[j] == '(' || s[j] == '{' {
        tag_scan(s, j + 1, depth + 1, tags)
    } else if s[j] == ')' || s[j] == '}' {
        if depth == 1 {
            (j + 1, tags)
        } else {
            tag_scan(s, j + 1, depth - 1, tags)
        }
    } else if s[j] == '"' {
        let (k, t) = read_quoted(s, j + 1, Seq::empty());
        proof {
            lemma_read_quoted_bounds(s, j + 1, Seq::empty());
        }
        tag_scan(s, k, depth, tags.push(t))
    } else {
        tag_scan(s, j + 1, depth, tags)
    }
}

pub proof fn lemma_tag_scan_bounds(s: Seq<char>, j: int, depth: int, tags: Seq<Seq<char>>)
    requires
        0 <= j <= s.len(),
    ensures
        j <= tag_scan(s, j, depth, tags).0 <= s.len(),
    decreases s.len() - j,
{
    if j < s.len() && depth > 0 {
        if s[j] == '(' || s[j] == '{' {
            lemma_tag_scan_bounds(s, j + 1, depth + 1, tags);
        } else if s[j] == ')' || s[j] == '}' {
            if depth != 1 {
                lemma_tag_scan_bounds(s, j + 1, depth - 1, tags);
            }
        } else if s[j] == '"' {
            lemma_read_quoted_bounds(s, j + 1, Seq::empty());
            let (k, t) = read_quoted(s, j + 1, Seq::empty());
            lemma_tag_scan_bounds(s, k, depth, tags.push(t));
        } else {
            lemma_tag_scan_bounds(s, j + 1, depth, tags);
        }
    }
}

/// Executable [`tag_scan`] from depth 1 with no tags yet.
fn tag_scan_exec(v: &Vec<char>, j: usize) -> (r: (usize, Vec<Vec<char>>))
    requires
        j <= v.len(),
    ensures
        (r.0 as int, text::views(r.1@)) == tag_scan(v@, j as int, 1, Seq::empty()),
        j <= r.0 <= v.len(),
{
    let mut k = j;
    let mut depth: u128 = 1;
    let mut tags: Vec<Vec<char>> = Vec::new();
    proof {
        lemma_tag_scan_bounds(v@, j as int, 1, Seq::empty());
        assert(text::views(tags@) == Seq::<Seq<char>>::empty());
    }
    while k < v.len() && depth > 0
        invariant
            j <= k <= v.len(),
            depth <= 1 + k - j,
            tag_scan(v@, k as int, depth as int, text::views(tags@)) == tag_scan(
                v@,
                j as int,
                1,
                Seq::empty(),
            ),
        decreases v.len() - k,
    {
        let c = v[k];
        if c == '(' || c == '{' {
            depth = depth + 1;
            k = k + 1;
        } else if c == ')' || c == '}' {
            if depth == 1 {
                k = k + 1;
                depth = 0;
                assert(tag_scan(v@, k as int, 0, text::views(tags@)) == (k as int, text::views(
                    tags@,
                )));
            } else {
                depth = depth - 1;
                k = k + 1;
            }
        } else if c == '"' {
            let (k2, t) = read_quoted_exec(v, k + 1);
            let ghost old_tags = tags@;
            tags.push(t);
            assert(text::views(tags@) == text::views(old_tags).push(t@));
            k = k2;
        } else {
            k = k + 1;
        }
    }
    (k, tags)
}

/// The index after the `}` that closes a block whose body starts at `j`
/// at brace nesting `depth` (or the length, if it is not closed).
pub open spec fn brace_skip(s: Seq<char>, j: int, depth: int) -> int
    decreases s.len() - j,
{
    if j < 0 || j >= s.len() || depth <= 0 {
        j
    } else if s[j] == '{' {
        brace_skip(s, j + 1, depth + 1)
    } else if s[j] == '}' {
        brace_skip(s, j + 1, depth - 1)
    } else {
        brace_skip(s, j + 1, depth)
    }
}

pub proof fn lemma_brace_skip_bounds(s: Seq<char>, j: int, depth: int)
    requires
        0 <= j <= s.len(),
    ensures
        j <= brace_skip(s, j, depth) <= s.len(),
    decreases s.len() - j,
{
    if j < s.len() && depth > 0 {
        if s[j] == '{' {
            lemma_brace_skip_bounds(s, j + 1, depth + 1);
        } else if s[j] == '}' {
            lemma_brace_skip_bounds(s, j + 1, depth - 1);
        } else {
            lemma_brace_skip_bounds(s, j + 1, depth);
        }
    }
}

/// Executable [`brace_skip`] from depth 1.
fn brace_skip_exec(v: &Vec<char>, j: usize) -> (k: usize)
    requires
        j <= v.len(),
    ensures
        k == brace_skip(v@, j as int, 1),
        j <= k <= v.len(),
{
    let mut k = j;
    let mut depth: u128 = 1;
    proof {
        lemma_brace_skip_bounds(v@, j as int, 1);
    }
    while k < v.len() && depth > 0
        invariant
            j <= k <= v.len(),
            depth <= 1 + k - j,
            brace_skip(v@, k as int, depth as int) == brace_skip(v@, j as int, 1),
        decreases v.len() - k,
    {
        if v[k] == '{' {
            depth = depth + 1;
        } else if v[k] == '}' {
            depth = depth - 1;
        }
        k = k + 1;
    }
    k
}

/// If `s[j]` is `c`, the index after it; otherwise `j`.
pub open spec fn skip_char(s: Seq<char>, j: int, c: char) -> int {
    if 0 <= j < s.len() && s[j] == c {
        j + 1
    } else {
        j
    }
}

/// `ignore![`
pub open spec fn ignore_marker() -> Seq<char> {
    seq!['i', 'g', 'n', 'o', 'r', 'e', '!', '[']
}

/// For an `ignore![` that starts at `i`: the index after the whole call —
/// tag list, whitespace, braced block, `]` and `;`, each where present —
/// and the tags read from the tag list.
pub open spec fn ignore_call_end(s: Seq<char>, i: int) -> (int, Seq<Seq<char>>) {
    let j0 = i + 8;
    let (j1, tags) = if 0 <= j0 < s.len() && s[j0] == '(' {
        tag_scan(s, j0 + 1, 1, Seq::empty())
    } else {
        (j0, Seq::empty())
    };
    let j2 = text::skip_ws_from(s, j1);
    let j3 = if 0 <= j2 < s.len() && s[j2] == '{' {
        brace_skip(s, j2 + 1, 1)
    } else {
        j2
    };
    let j4 = skip_char(s, text::skip_ws_from(s, j3), ']');
    let j5 = skip_char(s, text::skip_ws_from(s, j4), ';');
    (j5, tags)
}

pub proof fn lemma_ignore_call_end_bounds(s: Seq<char>, i: int)
    requires
        0 <= i,
        i + 8 <= s.len(),
    ensures
        i + 8 <= ignore_call_end(s, i).0 <= s.len(),
{
    let j0 = i + 8;
    if j0 < s.len() && s[j0] == '(' {
        lemma_tag_scan_bounds(s, j0 + 1, 1, Seq::empty());
    }
    let j1 = if 0 <= j0 < s.len() && s[j0] == '(' {
        tag_scan(s, j0 + 1, 1, Seq::empty()).0
    } else {
        j0
    };
    text::lemma_skip_ws_bounds(s, j1);
    let j2 = text::skip_ws_from(s, j1);
    if j2 < s.len() && s[j2] == '{' {
        lemma_brace_skip_bounds(s, j2 + 1, 1);
    }
    let j3 = if 0 <= j2 < s.len() && s[j2] == '{' {
        brace_skip(s, j2 + 1, 1)
    } else {
        j2
    };
    text::lemma_skip_ws_bounds(s, j3);
    let j4 = skip_char(s, text::skip_ws_from(s, j3), ']');
    text::lemma_skip_ws_bounds(s, j4);
}

/// Whether `c` can be part of a path written before a macro name, such as
/// `code_steps::`: an ASCII letter or digit, `_` or `:`.
pub open spec fn is_path_char(c: char) -> bool {
    ('a' <= c && c <= 'z') || ('A' <= c && c <= 'Z') || ('0' <= c && c <= '9') || c == '_'
        || c == ':'
}

/// The index where the path at the end of `out` starts (`out.len()` when
/// `out` does not end in a path character).
pub open spec fn path_start(out: Seq<char>) -> int
    decreases out.len(),
{
    if out.len() == 0 {
        0
    } else if !is_path_char(out.last()) {
        out.len() as int
    } else {
        path_start(out.drop_last())
    }
}

pub proof fn lemma_path_start_bounds(out: Seq<char>)
    ensures
        0 <= path_start(out) <= out.len(),
        forall|k: int| path_start(out) <= k < out.len() ==> is_path_char(#[trigger] out[k]),
    decreases out.len(),
{
    if out.len() > 0 && is_path_char(out.last()) {
        lemma_path_start_bounds(out.drop_last());
        assert forall|k: int| path_start(out) <= k < out.len() implies is_path_char(
            #[trigger] out[k],
        ) by {
            if k < out.len() - 1 {
                assert(out.drop_last()[k] == out[k]);
            }
        }
    }
}

/// `// (ignored)`, or `// (ignored a, b)` for tags `a` and `b`.
pub open spec fn ignored_note(tags: Seq<Seq<char>>) -> Seq<char> {
    let head = seq!['/', '/', ' ', '(', 'i', 'g', 'n', 'o', 'r', 'e', 'd'];
    if tags.len() == 0 {
        head + seq![')']
    } else {
        head + seq![' '] + text::join(tags, seq![',', ' ']) + seq![')']
    }
}

/// `out` without the path written just before the call (such as
/// `code_steps::`), followed by the note for `tags`; everything before that
/// path, indentation and code alike, stays.
pub open spec fn replace_call(out: Seq<char>, tags: Seq<Seq<char>>) -> Seq<char> {
    out.take(path_start(out)) + ignored_note(tags)
}

/// The display text from index `i` on, with `ignore![…]` calls replaced,
/// given the output `out` produced so far.
pub open spec fn ignores_from(s: Seq<char>, i: int, out: Seq<char>) -> Seq<char>
    decreases s.len() - i,
{
    if i < 0 || i >= s.len() {
        out
    } else if i + 8 < s.len() && text::occurs_at(s, i, ignore_marker()) {
        let (j, tags) = ignore_call_end(s, i);
        proof {
            lemma_ignore_call_end_bounds(s, i);
        }
        ignores_from(s, j, replace_call(out, tags))
    } else {
        ignores_from(s, i + 1, out.push(s[i]))
    }
}

/// `s` with every `ignore![…]` call replaced by an `// (ignored …)` note.
pub open spec fn ignores_replaced(s: Seq<char>) -> Seq<char> {
    ignores_from(s, 0, Seq::empty())
}

/// Replaces the end of `out` as [`replace_call`] says.
fn replace_call_exec(out: &mut Vec<char>, tags: &Vec<Vec<char>>)
    ensures
        final(out)@ == replace_call(old(out)@, text::views(tags@)),
{
    let mut start = out.len();
    assert(out@.take(start as int) == out@);
    while start > 0 && is_path_char_exec(out[start - 1])
        invariant
            start <= out.len(),
            path_start(out@.take(start as int)) == path_start(out@),
        decreases start,
    {
        assert(out@.take(start as int).drop_last() == out@.take(start - 1));
        start = start - 1;
    }
    proof {
        if start > 0 {
            assert(out@.take(start as int).last() == out@[start - 1]);
        }
        assert(path_start(out@.take(start as int)) == start);
    }
    out.truncate(start);
    let head = vec!['/', '/', ' ', '(', 'i', 'g', 'n', 'o', 'r', 'e', 'd'];
    text::append_chars(out, &head);
    if tags.len() > 0 {
        out.push(' ');
        let sep = vec![',', ' '];
        text::append_joined(out, tags, &sep);
    }
    out.push(')');
}

/// Executable [`is_path_char`].
fn is_path_char_exec(c: char) -> (b: bool)
    ensures
        b == is_path_char(c),
{
    ('a' <= c && c <= 'z') || ('A' <= c && c <= 'Z') || ('0' <= c && c <= '9') || c == '_'
        || c == ':'
}

/// Replace every `ignore![(…) { … }]` call in the source, together with a
/// path written before it (`code_steps::ignore![…]`), with a single
/// `// (ignored)` placeholder — `// (ignored a, b)` when the call carries
/// tags `a` and `b`. The code before the call, and its indentation, stay.
///
/// This only changes the displayed text: the block still runs.
/// Brace matching counts nesting, so closures inside the block are fine.
pub fn strip_ignores(src: &str) -> (r: String)
    ensures
        r@ == ignores_replaced(src@),
{
    let chars = text::chars_of(src);
    let len = chars.len();
    let marker = vec!['i', 'g', 'n', 'o', 'r', 'e', '!', '['];
    let mut out: Vec<char> = Vec::new();
    let mut i: usize = 0;
    while i < len
        invariant
            len == chars@.len(),
            chars@ == src@,
            marker@ == ignore_marker(),
            i <= len,
            ignores_from(chars@, i as int, out@) == ignores_replaced(chars@),
        decreases len - i,
    {
        if len - i > 8 && text::marker_at(&chars, i, &marker) {
            let (j, tags) = ignore_call_end_exec(&chars, i);
            replace_call_exec(&mut out, &tags);
            i = j;
        } else {
            out.push(chars[i]);
            i = i + 1;
        }
    }
    text::string_of(&out)
}

/// Executable [`ignore_call_end`].
fn ignore_call_end_exec(v: &Vec<char>, i: usize) -> (r: (usize, Vec<Vec<char>>))
    requires
        i + 8 < v.len(),
    ensures
        (r.0 as int, text::views(r.1@)) == ignore_call_end(v@, i as int),
        i + 8 <= r.0 <= v.len(),
{
    let len = v.len();
    let j0 = i + 8;
    let (j1, tags) = if j0 < len && v[j0] == '(' {
        tag_scan_exec(v, j0 + 1)
    } else {
        (j0, Vec::new())
    };
    proof {
        assert(text::views(Seq::<Vec<char>>::empty()) == Seq::<Seq<char>>::empty());
    }
    let j2 = text::skip_ws(v, j1);
    let j3 = if j2 < len && v[j2] == '{' {
        brace_skip_exec(v, j2 + 1)
    } else {
        j2
    };
    let mut j4 = text::skip_ws(v, j3);
    if j4 < len && v[j4] == ']' {
        j4 = j4 + 1;
    }
    let mut j5 = text::skip_ws(v, j4);
    if j5 < len && v[j5] == ';' {
        j5 = j5 + 1;
    }
    (j5, tags)
}


// ──────────────────────────── strip_nested_steps ────────────────────────────

/// `step![`
pub open spec fn step_marker() -> Seq<char> {
    seq!['s', 't', 'e', 'p', '!', '[']
}

pub open spec fn is_open_bracket(c: char) -> bool {
    c == '(' || c == '[' || c == '{'
}

pub open spec fn is_close_bracket(c: char) -> bool {
    c == ')' || c == ']' || c == '}'
}

/// The index after the bracket that closes a macro call whose arguments
/// continue at `j`, at bracket nesting `depth`. Brackets inside string and
/// character literals do not count, and a backslash inside a literal takes
/// the next character with it. Stops at the length if the call is not closed.
pub open spec fn call_skip(s: Seq<char>, j: int, depth: int, in_str: bool, in_char: bool) -> int
    decreases s.len() - j,
{
    if j < 0 || j >= s.len() || depth <= 0 {
        j
    } else if s[j] == '"' && !in_char {
        call_skip(s, j + 1, depth, !in_str, in_char)
    } else if s[j] == '\'' && !in_str {
        call_skip(s, j + 1, depth, in_str, !in_char)
    } else if s[j] == '\\' && (in_str || in_char) {
        if j + 2 <= s.len() {
            call_skip(s, j + 2, depth, in_str, in_char)
        } else {
            s.len() as int
        }
    } else if is_open_bracket(s[j]) && !in_str && !in_char {
        call_skip(s, j + 1, depth + 1, in_str, in_char)
    } else if is_close_bracket(s[j]) && !in_str && !in_char {
        if depth == 1 {
            j + 1
        } else {
            call_skip(s, j + 1, depth - 1, in_str, in_char)
        }
    } else {
        call_skip(s, j + 1, depth, in_str, in_char)
    }
}

pub proof fn lemma_call_skip_bounds(s: Seq<char>, j: int, depth: int, in_str: bool, in_char: bool)
    requires
        0 <= j <= s.len(),
    ensures
        j <= call_skip(s, j, depth, in_str, in_char) <= s.len(),
    decreases s.len() - j,
{
    if j < s.len() && depth > 0 {
        if s[j] == '"' && !in_char {
            lemma_call_skip_bounds(s, j + 1, depth, !in_str, in_char);
        } else if s[j] == '\'' && !in_str {
            lemma_call_skip_bounds(s, j + 1, depth, in_str, !in_char);
        } else if s[j] == '\\' && (in_str || in_char) {
            if j + 2 <= s.len() {
                lemma_call_skip_bounds(s, j + 2, depth, in_str, in_char);
            }
        } else if is_open_bracket(s[j]) && !in_str && !in_char {
            lemma_call_skip_bounds(s, j + 1, depth + 1, in_str, in_char);
        } else if is_close_bracket(s[j]) && !in_str && !in_char {
            if depth != 1 {
                lemma_call_skip_bounds(s, j + 1, depth - 1, in_str, in_char);
            }
        } else {
            lemma_call_skip_bounds(s, j + 1, depth, in_str, in_char);
        }
    }
}

/// Executable [`call_skip`] from depth 1 outside any literal.
fn call_skip_exec(v: &Vec<char>, j: usize) -> (k: usize)
    requires
        j <= v.len(),
    ensures
        k == call_skip(v@, j as int, 1, false, false),
        j <= k <= v.len(),
{
    let len = v.len();
    let mut k = j;
    let mut depth: u128 = 1;
    let mut in_str = false;
    let mut in_char = false;
    proof {
        lemma_call_skip_bounds(v@, j as int, 1, false, false);
    }
    while k < len && depth > 0
        invariant
            len == v@.len(),
            j <= k <= len,
            depth <= 1 + k - j,
            call_skip(v@, k as int, depth as int, in_str, in_char) == call_skip(
                v@,
                j as int,
                1,
                false,
                false,
            ),
        decreases len - k,
    {
        let c = v[k];
        if c == '"' && !in_char {
            in_str = !in_str;
            k = k + 1;
        } else if c == '\'' && !in_str {
            in_char = !in_char;
            k = k + 1;
        } else if c == '\\' && (in_str || in_char) {
            if len - k >= 2 {
                k = k + 2;
            } else {
                k = len;
                depth = 0;
            }
        } else if (c == '(' || c == '[' || c == '{') && !in_str && !in_char {
            depth = depth + 1;
            k = k + 1;
        } else if (c == ')' || c == ']' || c == '}') && !in_str && !in_char {
            if depth == 1 {
                depth = 0;
            } else {
                depth = depth - 1;
            }
            k = k + 1;
        } else {
            k = k + 1;
        }
    }
    k
}

/// For a `step![` that starts at `i`: the index after the whole call and
/// its `;`, and the step's description (the first string argument, if the
/// call begins with one).
pub open spec fn step_call_end(s: Seq<char>, i: int) -> (int, Seq<char>) {
    let j0 = text::skip_ws_from(s, i + 6);
    let (j1, desc) = if 0 <= j0 < s.len() && s[j0] == '"' {
        read_quoted(s, j0 + 1, Seq::empty())
    } else {
        (j0, Seq::empty())
    };
    let j2 = call_skip(s, j1, 1, false, false);
    let j3 = skip_char(s, text::skip_ws_from(s, j2), ';');
    (j3, desc)
}

pub proof fn lemma_step_call_end_bounds(s: Seq<char>, i: int)
    requires
        0 <= i,
        i + 6 <= s.len(),
    ensures
        i + 6 <= step_call_end(s, i).0 <= s.len(),
{
    text::lemma_skip_ws_bounds(s, i + 6);
    let j0 = text::skip_ws_from(s, i + 6);
    if j0 < s.len() && s[j0] == '"' {
        lemma_read_quoted_bounds(s, j0 + 1, Seq::empty());
    }
    let j1 = if 0 <= j0 < s.len() && s[j0] == '"' {
        read_quoted(s, j0 + 1, Seq::empty()).0
    } else {
        j0
    };
    lemma_call_skip_bounds(s, j1, 1, false, false);
    text::lemma_skip_ws_bounds(s, call_skip(s, j1, 1, false, false));
}

/// `// description` and a line ending, or `// (nested step)` for a step
/// without a description.
pub open spec fn nested_note(desc: Seq<char>) -> Seq<char> {
    if desc.len() == 0 {
        seq![
            '/',
            '/',
            ' ',
            '(',
            'n',
            'e',
            's',
            't',
            'e',
            'd',
            ' ',
            's',
            't',
            'e',
            'p',
            ')',
            '\n',
        ]
    } else {
        seq!['/', '/', ' '] + desc + seq!['\n']
    }
}

/// The display text from index `i` on, with nested `step![…]` calls
/// replaced, given the output `out` produced so far.
pub open spec fn nested_from(s: Seq<char>, i: int, out: Seq<char>) -> Seq<char>
    decreases s.len() - i,
{
    if i < 0 || i >= s.len() {
        out
    } else if i + 6 < s.len() && text::occurs_at(s, i, step_marker()) {
        let (j, desc) = step_call_end(s, i);
        proof {
            lemma_step_call_end_bounds(s, i);
        }
        nested_from(s, j, out + nested_note(desc))
    } else {
        nested_from(s, i + 1, out.push(s[i]))
    }
}

/// `s` with every `step![…]` call replaced by a `// description` note.
pub open spec fn nested_steps_replaced(s: Seq<char>) -> Seq<char> {
    nested_from(s, 0, Seq::empty())
}

/// Executable [`step_call_end`].
fn step_call_end_exec(v: &Vec<char>, i: usize) -> (r: (usize, Vec<char>))
    requires
        i + 6 < v.len(),
    ensures
        (r.0 as int, r.1@) == step_call_end(v@, i as int),
        i + 6 <= r.0 <= v.len(),
{
    let len = v.len();
    let j0 = text::skip_ws(v, i + 6);
    let (j1, desc) = if j0 < len && v[j0] == '"' {
        read_quoted_exec(v, j0 + 1)
    } else {
        (j0, Vec::new())
    };
    let j2 = call_skip_exec(v, j1);
    let mut j3 = text::skip_ws(v, j2);
    if j3 < len && v[j3] == ';' {
        j3 = j3 + 1;
    }
    (j3, desc)
}

/// Replace every `step![…]` call in the source with a `// description`
/// line naming the nested step (`// (nested step)` when it has none).
///
/// A nested step shows its own code when it runs, so the outer step only
/// names it. Bracket matching follows `(`, `[` and `{` nesting and skips
/// brackets inside string and character literals.
pub fn strip_nested_steps(src: &str) -> (r: String)
    ensures
        r@ == nested_steps_replaced(src@),
{
    let chars = text::chars_of(src);
    let len = chars.len();
    let marker = vec!['s', 't', 'e', 'p', '!', '['];
    let mut out: Vec<char> = Vec::new();
    let mut i: usize = 0;
    while i < len
        invariant
            len == chars@.len(),
            chars@ == src@,
            marker@ == step_marker(),
            i <= len,
            nested_from(chars@, i as int, out@) == nested_steps_replaced(chars@),
        decreases len - i,
    {
        if len - i > 6 && text::marker_at(&chars, i, &marker) {
            let (j, desc) = step_call_end_exec(&chars, i);
            let ghost before = out@;
            if desc.len() == 0 {
                let note = vec![
                    '/',
                    '/',
                    ' ',
                    '(',
                    'n',
                    'e',
                    's',
                    't',
                    'e',
                    'd',
                    ' ',
                    's',
                    't',
                    'e',
                    'p',
                    ')',
                    '\n',
                ];
                text::append_chars(&mut out, &note);
            } else {
                out.push('/');
                out.push('/');
                out.push(' ');
                text::append_chars(&mut out, &desc);
                out.push('\n');
            }
            assert(out@ == before + nested_note(desc@));
            i = j;
        } else {
            out.push(chars[i]);
            i = i + 1;
        }
    }
    text::string_of(&out)
}


// ──────────────────────────────── strip_waits ────────────────────────────────

/// `wait![`
pub open spec fn wait_marker() -> Seq<char> {
    seq!['w', 'a', 'i', 't', '!', '[']
}

/// The index after the `]` that closes a `wait![` call whose arguments
/// continue at `j`, or -1 if it is not closed. Brackets inside string
/// literals do not count; a backslash inside a string escapes the next
/// character.
pub open spec fn wait_close(s: Seq<char>, j: int, depth: int, in_str: bool, escaped: bool) -> int
    decreases s.len() - j,
{
    if j < 0 || j >= s.len() {
        -1
    } else if escaped {
        wait_close(s, j + 1, depth, in_str, false)
    } else if s[j] == '\\' && in_str {
        wait_close(s, j + 1, depth, in_str, true)
    } else if s[j] == '"' {
        wait_close(s, j + 1, depth, !in_str, false)
    } else if s[j] == '[' && !in_str {
        wait_close(s, j + 1, depth + 1, in_str, false)
    } else if s[j] == ']' && !in_str {
        if depth == 1 {
            j + 1
        } else {
            wait_close(s, j + 1, depth - 1, in_str, false)
        }
    } else {
        wait_close(s, j + 1, depth, in_str, false)
    }
}

pub proof fn lemma_wait_close_bounds(s: Seq<char>, j: int, depth: int, in_str: bool, escaped: bool)
    requires
        0 <= j <= s.len(),
    ensures
        wait_close(s, j, depth, in_str, escaped) == -1 || j < wait_close(
            s,
            j,
            depth,
            in_str,
            escaped,
        ) <= s.len(),
    decreases s.len() - j,
{
    if j < s.len() {
        if escaped {
            lemma_wait_close_bounds(s, j + 1, depth, in_str, false);
        } else if s[j] == '\\' && in_str {
            lemma_wait_close_bounds(s, j + 1, depth, in_str, true);
        } else if s[j] == '"' {
            lemma_wait_close_bounds(s, j + 1, depth, !in_str, false);
        } else if s[j] == '[' && !in_str {
            lemma_wait_close_bounds(s, j + 1, depth + 1, in_str, false);
        } else if s[j] == ']' && !in_str {
            if depth != 1 {
                lemma_wait_close_bounds(s, j + 1, depth - 1, in_str, false);
            }
        } else {
            lemma_wait_close_bounds(s, j + 1, depth, in_str, false);
        }
    }
}

/// For a `wait![` at `p`: where the text resumes — after the closing `]`
/// (or right after `wait![` when there is none), the whitespace that
/// follows, and one `;`.
pub open spec fn wait_resume(s: Seq<char>, p: int) -> int {
    let r = p + 6;
    let e = wait_close(s, r, 1, false, false);
    let e2 = if e < 0 {
        r
    } else {
        e
    };
    skip_char(s, text::skip_ws_from(s, e2), ';')
}

pub proof fn lemma_wait_resume_bounds(s: Seq<char>, p: int)
    requires
        0 <= p,
        p + 6 <= s.len(),
    ensures
        p + 6 <= wait_resume(s, p) <= s.len(),
{
    lemma_wait_close_bounds(s, p + 6, 1, false, false);
    let e = wait_close(s, p + 6, 1, false, false);
    let e2 = if e < 0 {
        p + 6
    } else {
        e
    };
    text::lemma_skip_ws_bounds(s, e2);
}

/// The display text from index `k` on, with `wait![…]` calls removed,
/// given the output `out` produced so far.
pub open spec fn waits_from(s: Seq<char>, k: int, out: Seq<char>) -> Seq<char>
    decreases s.len() - k,
{
    if k < 0 || k >= s.len() {
        out
    } else {
        let p = text::find_from(s, wait_marker(), k);
        if p >= s.len() {
            out + s.subrange(k, s.len() as int)
        } else {
            proof {
                text::lemma_find_from_bounds(s, wait_marker(), k);
                lemma_wait_resume_bounds(s, p);
            }
            waits_from(s, wait_resume(s, p), out + s.subrange(k, p))
        }
    }
}

/// `s` with its `wait![…]` calls removed.
pub open spec fn waits_removed(s: Seq<char>) -> Seq<char> {
    waits_from(s, 0, Seq::empty())
}

/// Executable [`wait_resume`].
fn wait_resume_exec(v: &Vec<char>, p: usize) -> (k: usize)
    requires
        p + 6 <= v.len(),
    ensures
        k == wait_resume(v@, p as int),
{
    let len = v.len();
    let r = p + 6;
    let mut j = r;
    let mut depth: u128 = 1;
    let mut in_str = false;
    let mut escaped = false;
    let mut end: usize = r;
    proof {
        lemma_wait_close_bounds(v@, r as int, 1, false, false);
    }
    while j < len
        invariant_except_break
            end == r,
        invariant
            len == v@.len(),
            r <= j <= len,
            1 <= depth <= 1 + j - r,
            wait_close(v@, j as int, depth as int, in_str, escaped) == wait_close(
                v@,
                r as int,
                1,
                false,
                false,
            ),
        ensures
            end as int == if wait_close(v@, r as int, 1, false, false) < 0 {
                r as int
            } else {
                wait_close(v@, r as int, 1, false, false)
            },
        decreases len - j,
    {
        let c = v[j];
        if escaped {
            escaped = false;
        } else if c == '\\' && in_str {
            escaped = true;
        } else if c == '"' {
            in_str = !in_str;
        } else if c == '[' && !in_str {
            depth = depth + 1;
        } else if c == ']' && !in_str {
            if depth == 1 {
                end = j + 1;
                break;
            }
            depth = depth - 1;
        }
        j = j + 1;
    }
    let k = text::skip_ws(v, end);
    if k < len && v[k] == ';' {
        k + 1
    } else {
        k
    }
}

/// Remove `wait![…]` calls (and a `;` after them) from the display: the
/// pause prompt already conveys the message.
pub fn strip_waits(src: &str) -> (r: String)
    ensures
        r@ == waits_removed(src@),
{
    let chars = text::chars_of(src);
    let len = chars.len();
    let marker = vec!['w', 'a', 'i', 't', '!', '['];
    let mut out: Vec<char> = Vec::new();
    let mut k: usize = 0;
    while k < len
        invariant
            len == chars@.len(),
            chars@ == src@,
            marker@ == wait_marker(),
            k <= len,
            waits_from(chars@, k as int, out@) == waits_removed(chars@),
        decreases len - k,
    {
        let p = text::find_marker(&chars, &marker, k);
        let piece = text::slice_vec(&chars, k, p);
        text::append_chars(&mut out, &piece);
        if p >= len {
            k = len;
        } else {
            proof {
                text::lemma_find_from_bounds(chars@, marker@, k as int);
                lemma_wait_resume_bounds(chars@, p as int);
            }
            k = wait_resume_exec(&chars, p);
        }
    }
    text::string_of(&out)
}

// ────────────────────────────── restore_newlines ──────────────────────────────

/// The text from index `i` on with a line break after every `;` that is
/// followed (past any spaces) by something other than a line ending or `}`;
/// the spaces before that something are dropped.
pub open spec fn newlines_from(s: Seq<char>, i: int, out: Seq<char>) -> Seq<char>
    decreases s.len() - i,
{
    if i < 0 || i >= s.len() {
        out
    } else if s[i] == ';' {
        let j = text::skip_run_from(s, ' ', i + 1);
        if j < s.len() && s[j] != '\n' && s[j] != '}' {
            proof {
                text::lemma_skip_run_bounds(s, ' ', i + 1);
            }
            newlines_from(s, j, out + seq![';', '\n'])
        } else {
            newlines_from(s, i + 1, out.push(';'))
        }
    } else {
        newlines_from(s, i + 1, out.push(s[i]))
    }
}

/// `s` with its statements put back on lines of their own.
pub open spec fn newlines_restored(s: Seq<char>) -> Seq<char> {
    newlines_from(s, 0, Seq::empty())
}

/// After `TokenStream::to_string()` normalises whitespace, consecutive
/// statements end up on one line with stray spaces. This inserts a newline
/// after each `;` and strips the spaces that follow it, so every line
/// starts at the same indentation level. No newline goes in before a line
/// ending or a closing `}`.
pub fn restore_newlines(src: &str) -> (r: String)
    ensures
        r@ == newlines_restored(src@),
{
    let chars = text::chars_of(src);
    let len = chars.len();
    let mut out: Vec<char> = Vec::new();
    let mut i: usize = 0;
    while i < len
        invariant
            len == chars@.len(),
            chars@ == src@,
            i <= len,
            newlines_from(chars@, i as int, out@) == newlines_restored(chars@),
        decreases len - i,
    {
        if chars[i] == ';' {
            let j = text::skip_run(&chars, ' ', i + 1);
            if j < len && chars[j] != '\n' && chars[j] != '}' {
                let ghost before = out@;
                out.push(';');
                out.push('\n');
                assert(out@ == before + seq![';', '\n']);
                i = j;
            } else {
                out.push(';');
                i = i + 1;
            }
        } else {
            out.push(chars[i]);
            i = i + 1;
        }
    }
    text::string_of(&out)
}


// ─────────────────────────── collapse_continuations ───────────────────────────

/// Whether a trimmed line ends a statement or opens or closes a block.
pub open spec fn ends_statement(t: Seq<char>) -> bool {
    t.len() > 0 && (t.last() == ';' || t.last() == '}' || t.last() == '{')
}

/// What one line contributes to the collapsed text: a blank line becomes a
/// line ending; a line that ends a statement (or opens or closes a block)
/// stays as it is with its line ending; any other line loses its trailing
/// whitespace and continues on the same line after a space.
pub open spec fn collapsed_piece(l: Seq<char>) -> Seq<char> {
    let t = text::trim(l);
    if t.len() == 0 {
        seq!['\n']
    } else if ends_statement(t) {
        l.push('\n')
    } else {
        text::trim_end(l).push(' ')
    }
}

/// The pieces of lines `k..` appended to `out`.
pub open spec fn collapsed_from(ls: Seq<Seq<char>>, k: int, out: Seq<char>) -> Seq<char>
    decreases ls.len() - k,
{
    if k < 0 || k >= ls.len() {
        out
    } else {
        collapsed_from(ls, k + 1, out + collapsed_piece(ls[k]))
    }
}

/// `s` with continuation lines joined.
pub open spec fn collapsed(s: Seq<char>) -> Seq<char> {
    collapsed_from(text::lines(s), 0, Seq::empty())
}

/// Appends [`collapsed_piece`] of `l` to `out`.
fn push_collapsed_piece(out: &mut Vec<char>, l: &Vec<char>)
    ensures
        final(out)@ == old(out)@ + collapsed_piece(l@),
{
    let start = text::skip_ws(l, 0);
    let rest = text::slice_vec(l, start, l.len());
    let n = text::trim_end_len(&rest);
    proof {
        assert(rest@ == text::trim_start(l@));
    }
    if n == 0 {
        out.push('\n');
    } else {
        let last = rest[n - 1];
        proof {
            assert(text::trim(l@) == rest@.take(n as int));
            assert(text::trim(l@).last() == last);
        }
        if last == ';' || last == '}' || last == '{' {
            text::append_chars(out, l);
            out.push('\n');
        } else {
            let m = text::trim_end_len(l);
            let head = text::slice_vec(l, 0, m);
            text::append_chars(out, &head);
            out.push(' ');
        }
    }
}

/// Collapse multi-line expressions into single lines. Lines that don't end
/// with `;`, `{`, or `}` are joined with the next line with a space.
pub fn collapse_continuations(src: &str) -> (r: String)
    ensures
        r@ == collapsed(src@),
{
    let chars = text::chars_of(src);
    let ls = text::split_lines(&chars);
    let mut out: Vec<char> = Vec::new();
    let mut k: usize = 0;
    while k < ls.len()
        invariant
            k <= ls.len(),
            text::views(ls@) == text::lines(src@),
            collapsed_from(text::views(ls@), k as int, out@) == collapsed(src@),
        decreases ls.len() - k,
    {
        push_collapsed_piece(&mut out, &ls[k]);
        k = k + 1;
    }
    text::string_of(&out)
}

// ─────────────────────────────────── dedent ───────────────────────────────────

/// Whether a line holds nothing but whitespace.
pub open spec fn is_blank(l: Seq<char>) -> bool {
    text::skip_ws_from(l, 0) == l.len()
}

/// The width in bytes of a line's leading whitespace.
pub open spec fn indent_bytes(l: Seq<char>) -> nat {
    text::utf8_len(l.take(text::skip_ws_from(l, 0)))
}

/// The smallest indentation among the non-blank lines `k..`, given the
/// smallest one among the lines before (`acc`).
pub open spec fn min_indent_from(ls: Seq<Seq<char>>, k: int, acc: Option<nat>) -> Option<nat>
    decreases ls.len() - k,
{
    if k < 0 || k >= ls.len() {
        acc
    } else if is_blank(ls[k]) {
        min_indent_from(ls, k + 1, acc)
    } else {
        let w = indent_bytes(ls[k]);
        let m = match acc {
            Some(a) => if a <= w {
                a
            } else {
                w
            },
            None => w,
        };
        min_indent_from(ls, k + 1, Some(m))
    }
}

/// The indentation common to all non-blank lines (0 when there is none).
pub open spec fn common_indent(ls: Seq<Seq<char>>) -> nat {
    match min_indent_from(ls, 0, None) {
        Some(m) => m,
        None => 0,
    }
}

/// Whether `m` bytes into `l` fall on a character boundary.
pub open spec fn on_boundary(l: Seq<char>, m: int) -> bool
    decreases l.len(),
{
    if m == 0 {
        true
    } else if m < 0 || l.len() == 0 {
        false
    } else {
        on_boundary(l.drop_first(), m - text::char_len(l[0]))
    }
}

proof fn lemma_on_boundary_nonneg(l: Seq<char>, m: int)
    requires
        on_boundary(l, m),
    ensures
        m >= 0,
{
}

/// `l` without its first `m` bytes.
pub open spec fn drop_bytes(l: Seq<char>, m: int) -> Seq<char>
    decreases l.len(),
{
    if m <= 0 || l.len() == 0 {
        l
    } else {
        drop_bytes(l.drop_first(), m - text::char_len(l[0]))
    }
}

/// A line after dedenting by `m` bytes: the part after the first `m`
/// bytes, or nothing for a line no longer than `m` bytes.
pub open spec fn cut_line(l: Seq<char>, m: nat) -> Seq<char> {
    if text::utf8_len(l) > m {
        drop_bytes(l, m as int)
    } else {
        Seq::empty()
    }
}

/// Whether removing `m` bytes from each line cuts every line that is longer
/// than `m` bytes on a character boundary (slicing a `str` elsewhere panics).
pub open spec fn cuttable(ls: Seq<Seq<char>>, m: nat) -> bool {
    forall|k: int|
        0 <= k < ls.len() && text::utf8_len(#[trigger] ls[k]) > m ==> on_boundary(ls[k], m as int)
}

/// The dedented lines `k..` appended to `out`, each after a line ending
/// but the first, and a final line ending.
pub open spec fn dedent_from(ls: Seq<Seq<char>>, m: nat, k: int, out: Seq<char>) -> Seq<char>
    decreases ls.len() - k,
{
    if k < 0 || k >= ls.len() {
        out.push('\n')
    } else {
        let sep = if k > 0 {
            seq!['\n']
        } else {
            Seq::empty()
        };
        dedent_from(ls, m, k + 1, out + sep + cut_line(ls[k], m))
    }
}

/// `s` with the indentation common to its non-blank lines removed.
pub open spec fn dedented(s: Seq<char>) -> Seq<char> {
    let ls = text::lines(s);
    dedent_from(ls, common_indent(ls), 0, Seq::empty())
}

/// Whether [`dedent`] can cut `s` on character boundaries.
pub open spec fn dedent_defined(s: Seq<char>) -> bool {
    let ls = text::lines(s);
    cuttable(ls, common_indent(ls))
}

proof fn lemma_utf8_len_push(s: Seq<char>, c: char)
    ensures
        text::utf8_len(s.push(c)) == text::utf8_len(s) + text::char_len(c),
{
    assert(s.push(c).drop_last() == s);
}

/// The UTF-8 length of the first `n` characters of `l`.
fn utf8_prefix_len(l: &Vec<char>, n: usize) -> (b: u128)
    requires
        n <= l.len(),
    ensures
        b == text::utf8_len(l@.take(n as int)),
        b <= 4 * n,
{
    let mut b: u128 = 0;
    let mut k: usize = 0;
    assert(l@.take(0) == Seq::<char>::empty());
    while k < n
        invariant
            k <= n <= l.len(),
            b == text::utf8_len(l@.take(k as int)),
            b <= 4 * k,
        decreases n - k,
    {
        proof {
            assert(l@.take(k + 1) == l@.take(k as int).push(l@[k as int]));
            lemma_utf8_len_push(l@.take(k as int), l@[k as int]);
        }
        b = b + text::char_len_utf8(l[k]);
        k = k + 1;
    }
    b
}

/// Executable [`drop_bytes`] on a boundary.
fn drop_bytes_exec(l: &Vec<char>, m: u128) -> (r: Vec<char>)
    requires
        on_boundary(l@, m as int),
    ensures
        r@ == drop_bytes(l@, m as int),
{
    let mut k: usize = 0;
    let mut rem: u128 = m;
    assert(l@.skip(0) == l@);
    while rem > 0
        invariant
            k <= l.len(),
            on_boundary(l@.skip(k as int), rem as int),
            drop_bytes(l@.skip(k as int), rem as int) == drop_bytes(l@, m as int),
        decreases l.len() - k,
    {
        assert(l@.skip(k as int).len() > 0);
        let c = text::char_len_utf8(l[k]);
        assert(l@.skip(k as int).drop_first() == l@.skip(k + 1));
        assert(l@.skip(k as int)[0] == l@[k as int]);
        proof {
            lemma_on_boundary_nonneg(l@.skip(k + 1), rem - c);
        }
        rem = rem - c;
        k = k + 1;
    }
    text::slice_vec(l, k, l.len())
}

/// Executable [`common_indent`].
fn common_indent_exec(ls: &Vec<Vec<char>>) -> (m: u128)
    ensures
        m == common_indent(text::views(ls@)),
{
    let ghost lv = text::views(ls@);
    let mut found = false;
    let mut min: u128 = 0;
    let mut k: usize = 0;
    while k < ls.len()
        invariant
            k <= ls.len(),
            lv == text::views(ls@),
            !found ==> min == 0,
            min_indent_from(lv, k as int, if found {
                Some(min as nat)
            } else {
                None
            }) == min_indent_from(lv, 0, None),
        decreases ls.len() - k,
    {
        let line = &ls[k];
        let ws = text::skip_ws(line, 0);
        if ws != line.len() {
            let w = utf8_prefix_len(line, ws);
            if !found || w < min {
                min = w;
            }
            found = true;
        }
        k = k + 1;
    }
    min
}

/// Executable [`on_boundary`].
fn on_boundary_exec(l: &Vec<char>, m: u128) -> (b: bool)
    ensures
        b == on_boundary(l@, m as int),
{
    let mut k: usize = 0;
    let mut rem: u128 = m;
    assert(l@.skip(0) == l@);
    while rem > 0
        invariant
            k <= l.len(),
            on_boundary(l@.skip(k as int), rem as int) == on_boundary(l@, m as int),
        decreases l.len() - k,
    {
        if k >= l.len() {
            return false;
        }
        let c = text::char_len_utf8(l[k]);
        assert(l@.skip(k as int).drop_first() == l@.skip(k + 1));
        assert(l@.skip(k as int)[0] == l@[k as int]);
        if c > rem {
            proof {
                if on_boundary(l@.skip(k + 1), rem - c) {
                    lemma_on_boundary_nonneg(l@.skip(k + 1), rem - c);
                }
            }
            return false;
        }
        rem = rem - c;
        k = k + 1;
    }
    true
}

/// Whether `dedent` can cut every line of `s` on a character boundary
/// (`dedent` requires it).
pub fn can_dedent(s: &str) -> (b: bool)
    ensures
        b == dedent_defined(s@),
{
    let ls = text::split_lines(&text::chars_of(s));
    let m = common_indent_exec(&ls);
    let ghost lv = text::views(ls@);
    let mut k: usize = 0;
    while k < ls.len()
        invariant
            k <= ls.len(),
            lv == text::views(ls@),
            lv == text::lines(s@),
            m == common_indent(lv),
            forall|j: int|
                0 <= j < k && text::utf8_len(#[trigger] lv[j]) > m ==> on_boundary(lv[j], m as int),
        decreases ls.len() - k,
    {
        let line = &ls[k];
        assert(lv[k as int] == line@);
        let total = utf8_prefix_len(line, line.len());
        assert(line@.take(line.len() as int) == line@);
        if total > m && !on_boundary_exec(line, m) {
            return false;
        }
        k = k + 1;
    }
    true
}

/// Remove the common leading whitespace from every line, keeping relative
/// indentation intact.
///
/// An empty or whitespace-only line is **not** counted when computing the
/// minimum indent, so trailing blank lines don't skew the result. The
/// result ends with a line ending.
pub fn dedent(s: &str) -> (r: String)
    requires
        dedent_defined(s@),
    ensures
        r@ == dedented(s@),
{
    let chars = text::chars_of(s);
    let ls = text::split_lines(&chars);
    let ghost lv = text::views(ls@);
    let min = common_indent_exec(&ls);
    let mut out: Vec<char> = Vec::new();
    let mut k: usize = 0;
    while k < ls.len()
        invariant
            k <= ls.len(),
            lv == text::views(ls@),
            lv == text::lines(s@),
            common_indent(lv) == min as nat,
            cuttable(lv, min as nat),
            dedent_from(lv, min as nat, k as int, out@) == dedented(s@),
        decreases ls.len() - k,
    {
        let ghost before = out@;
        if k > 0 {
            out.push('\n');
        }
        let ghost with_sep = out@;
        let line = &ls[k];
        let total = utf8_prefix_len(line, line.len());
        assert(line@.take(line.len() as int) == line@);
        assert(lv[k as int] == line@);
        if total > min {
            let rest = drop_bytes_exec(line, min);
            text::append_chars(&mut out, &rest);
        } else {
            assert(out@ == with_sep + Seq::<char>::empty());
        }
        assert(out@ == before + (if k > 0 {
            seq!['\n']
        } else {
            Seq::<char>::empty()
        }) + cut_line(lv[k as int], min as nat));
        k = k + 1;
    }
    out.push('\n');
    text::string_of(&out)
}


// ─────────────────────────────── step display ───────────────────────────────

/// The last index that holds `c`, or -1.
pub open spec fn last_index_of(s: Seq<char>, c: char) -> int
    decreases s.len(),
{
    if s.len() == 0 {
        -1
    } else if s.last() == c {
        s.len() - 1
    } else {
        last_index_of(s.drop_last(), c)
    }
}

pub proof fn lemma_last_index_of_bounds(s: Seq<char>, c: char)
    ensures
        -1 <= last_index_of(s, c) < s.len(),
        last_index_of(s, c) >= 0 ==> s[last_index_of(s, c)] == c,
        forall|k: int| last_index_of(s, c) < k < s.len() ==> #[trigger] s[k] != c,
    decreases s.len(),
{
    if s.len() > 0 && s.last() != c {
        lemma_last_index_of_bounds(s.drop_last(), c);
        assert forall|k: int| last_index_of(s, c) < k < s.len() implies #[trigger] s[k] != c by {
            if k < s.len() - 1 {
                assert(s[k] == s.drop_last()[k]);
            }
        }
    }
}

/// The code of a step block: what lies between the first `{` and the last
/// `}` of the step's arguments, without leading line endings.
pub open spec fn block_code(raw: Seq<char>) -> Seq<char> {
    let inner = raw.subrange(
        text::find_char_from(raw, '{', 0) + 1,
        last_index_of(raw, '}'),
    );
    inner.skip(text::skip_run_from(inner, '\n', 0))
}

/// Whether the arguments have a `{` and, after the first one, a `}`.
pub open spec fn has_block(raw: Seq<char>) -> bool {
    text::find_char_from(raw, '{', 0) < last_index_of(raw, '}')
}

/// The display string of a step: the block's code run through the whole
/// pipeline.
pub open spec fn step_display_spec(raw: Seq<char>) -> Seq<char> {
    nested_steps_replaced(
        waits_removed(
            ignores_replaced(uncommented(collapsed(newlines_restored(dedented(block_code(raw)))))),
        ),
    )
}

/// The code between the first `{` and the last `}` of `raw`, without
/// leading line endings; `None` when `raw` has no such block.
fn block_code_of(raw: &str) -> (r: Option<String>)
    ensures
        r is Some <==> has_block(raw@),
        r is Some ==> r->0@ == block_code(raw@),
{
    let chars = text::chars_of(raw);
    let start = text::find_char(&chars, '{', 0);
    let mut end = chars.len();
    assert(chars@.take(end as int) == chars@);
    while end > 0 && chars[end - 1] != '}'
        invariant
            end <= chars.len(),
            last_index_of(chars@.take(end as int), '}') == last_index_of(chars@, '}'),
        decreases end,
    {
        assert(chars@.take(end as int).drop_last() == chars@.take(end - 1));
        end = end - 1;
    }
    proof {
        if end > 0 {
            assert(chars@.take(end as int).last() == '}');
        }
    }
    if end == 0 || start >= end - 1 {
        return None;
    }
    let inner = text::slice_vec(&chars, start + 1, end - 1);
    let skip = text::skip_run(&inner, '\n', 0);
    Some(text::string_of(&text::slice_vec(&inner, skip, inner.len())))
}

/// The pipeline on a block's code.
fn display_of_code(code: &str) -> (r: String)
    requires
        dedent_defined(code@),
    ensures
        r@ == nested_steps_replaced(
            waits_removed(
                ignores_replaced(uncommented(collapsed(newlines_restored(dedented(code@))))),
            ),
        ),
{
    let s = dedent(code);
    let s = restore_newlines(s.as_str());
    let s = collapse_continuations(s.as_str());
    let s = strip_comments(s.as_str());
    let s = strip_ignores(s.as_str());
    let s = strip_waits(s.as_str());
    strip_nested_steps(s.as_str())
}

/// The text that a step shows for its block, from the text of the step's
/// arguments (`raw`, as the token stream prints it): the code between the
/// first `{` and the last `}`, without leading line endings, run through
/// [`dedent`], [`restore_newlines`], [`collapse_continuations`],
/// [`strip_comments`], [`strip_ignores`], [`strip_waits`] and
/// [`strip_nested_steps`].
pub fn step_display(raw: &str) -> (r: String)
    requires
        has_block(raw@),
        dedent_defined(block_code(raw@)),
    ensures
        r@ == step_display_spec(raw@),
{
    match block_code_of(raw) {
        Some(code) => display_of_code(code.as_str()),
        None => String::new(),
    }
}

/// [`step_display`], or `None` for arguments that it does not take: those
/// without a `{` followed by a `}`, and those whose block `dedent` cannot cut
/// on character boundaries.
pub fn step_display_checked(raw: &str) -> (r: Option<String>)
    ensures
        r is Some <==> has_block(raw@) && dedent_defined(block_code(raw@)),
        r is Some ==> r->0@ == step_display_spec(raw@),
{
    match block_code_of(raw) {
        Some(code) => if can_dedent(code.as_str()) {
            Some(display_of_code(code.as_str()))
        } else {
            None
        },
        None => None,
    }
}


/// The characters of `s` that are not whitespace.
pub open spec fn visible(s: Seq<char>) -> Seq<char>
    decreases s.len(),
{
    if s.len() == 0 {
        Seq::empty()
    } else if text::is_ws(s[0]) {
        visible(s.drop_first())
    } else {
        seq![s[0]] + visible(s.drop_first())
    }
}

proof fn lemma_visible_concat(a: Seq<char>, b: Seq<char>)
    ensures
        visible(a + b) == visible(a) + visible(b),
    decreases a.len(),
{
    if a.len() > 0 {
        assert((a + b).drop_first() == a.drop_first() + b);
        lemma_visible_concat(a.drop_first(), b);
        if !text::is_ws(a[0]) {
            assert(seq![a[0]] + visible(a.drop_first()) + visible(b) == seq![a[0]] + (visible(
                a.drop_first(),
            ) + visible(b)));
        }
    } else {
        assert(a + b == b);
        assert(visible(a) == Seq::<char>::empty());
    }
}

proof fn lemma_visible_all_ws(s: Seq<char>)
    requires
        forall|k: int| 0 <= k < s.len() ==> text::is_ws(#[trigger] s[k]),
    ensures
        visible(s) == Seq::<char>::empty(),
    decreases s.len(),
{
    if s.len() > 0 {
        assert forall|k: int| 0 <= k < s.drop_first().len() implies text::is_ws(
            #[trigger] s.drop_first()[k],
        ) by {
            assert(s.drop_first()[k] == s[k + 1]);
        }
        lemma_visible_all_ws(s.drop_first());
    }
}

proof fn lemma_visible_push_ws(s: Seq<char>, c: char)
    requires
        text::is_ws(c),
    ensures
        visible(s.push(c)) == visible(s),
{
    lemma_visible_concat(s, seq![c]);
    assert(s.push(c) == s + seq![c]);
    assert(seq![c].drop_first() == Seq::<char>::empty());
    assert(visible(Seq::<char>::empty()) == Seq::<char>::empty());
    assert(visible(s) + Seq::<char>::empty() == visible(s));
}

proof fn lemma_visible_trim_end(s: Seq<char>)
    ensures
        visible(text::trim_end(s)) == visible(s),
    decreases s.len(),
{
    if s.len() > 0 && text::is_ws(s.last()) {
        lemma_visible_trim_end(s.drop_last());
        assert(s == s.drop_last().push(s.last()));
        lemma_visible_push_ws(s.drop_last(), s.last());
    }
}

proof fn lemma_visible_trim_start(s: Seq<char>)
    ensures
        visible(text::trim_start(s)) == visible(s),
{
    text::lemma_skip_ws_bounds(s, 0);
    let w = text::skip_ws_from(s, 0);
    assert(s == s.take(w) + s.skip(w));
    lemma_visible_concat(s.take(w), s.skip(w));
    assert forall|k: int| 0 <= k < s.take(w).len() implies text::is_ws(#[trigger] s.take(w)[k]) by {
        assert(s.take(w)[k] == s[k]);
    }
    lemma_visible_all_ws(s.take(w));
    assert(Seq::<char>::empty() + visible(s.skip(w)) == visible(s.skip(w)));
}

proof fn lemma_visible_piece(l: Seq<char>)
    ensures
        visible(collapsed_piece(l)) == visible(l),
{
    lemma_visible_trim_start(l);
    lemma_visible_trim_end(text::trim_start(l));
    lemma_visible_trim_end(l);
    let t = text::trim(l);
    if t.len() == 0 {
        assert(visible(t) == Seq::<char>::empty());
        assert(seq!['\n'].drop_first() == Seq::<char>::empty());
        assert(visible(seq!['\n']) == visible(Seq::<char>::empty()));
    } else if ends_statement(t) {
        lemma_visible_push_ws(l, '\n');
    } else {
        lemma_visible_push_ws(text::trim_end(l), ' ');
    }
}

/// The visible characters of each line, one line after the other.
pub open spec fn visible_lines(ls: Seq<Seq<char>>) -> Seq<char>
    decreases ls.len(),
{
    if ls.len() == 0 {
        Seq::empty()
    } else {
        visible(ls[0]) + visible_lines(ls.drop_first())
    }
}

proof fn lemma_collapsed_visible(ls: Seq<Seq<char>>, k: int, out: Seq<char>)
    requires
        0 <= k <= ls.len(),
    ensures
        visible(collapsed_from(ls, k, out)) == visible(out) + visible_lines(ls.skip(k)),
    decreases ls.len() - k,
{
    if k < ls.len() {
        lemma_collapsed_visible(ls, k + 1, out + collapsed_piece(ls[k]));
        lemma_visible_concat(out, collapsed_piece(ls[k]));
        lemma_visible_piece(ls[k]);
        assert(ls.skip(k).drop_first() == ls.skip(k + 1));
        assert(ls.skip(k)[0] == ls[k]);
        assert(visible(out) + visible(ls[k]) + visible_lines(ls.skip(k + 1)) == visible(out) + (
        visible(ls[k]) + visible_lines(ls.skip(k + 1))));
    } else {
        assert(ls.skip(k).len() == 0);
        assert(visible(out) + Seq::<char>::empty() == visible(out));
    }
}

proof fn lemma_lines_visible(s: Seq<char>, i: int)
    requires
        0 <= i <= s.len(),
    ensures
        visible(s.skip(i)) == visible_lines(text::lines_from(s, i)),
    decreases s.len() - i,
{
    if i >= s.len() {
        assert(s.skip(i) == Seq::<char>::empty());
        assert(text::lines_from(s, i) == Seq::<Seq<char>>::empty());
    } else {
        let j = text::find_char_from(s, '\n', i);
        text::lemma_find_char_bounds(s, '\n', i);
        let sub = s.subrange(i, j);
        if j < s.len() {
            lemma_lines_visible(s, j + 1);
            assert(s.skip(i) == sub + (seq!['\n'] + s.skip(j + 1)));
            lemma_visible_concat(sub, seq!['\n'] + s.skip(j + 1));
            lemma_visible_concat(seq!['\n'], s.skip(j + 1));
            assert(seq!['\n'].drop_first() == Seq::<char>::empty());
            assert(visible(Seq::<char>::empty()) == Seq::<char>::empty());
            assert(text::is_ws('\n'));
            assert(visible(seq!['\n']) == Seq::<char>::empty());
            if sub.len() > 0 && sub.last() == '\r' {
                assert(sub == sub.drop_last().push('\r'));
                lemma_visible_push_ws(sub.drop_last(), '\r');
            }
            assert(visible(text::strip_cr(sub)) == visible(sub));
            let ls = text::lines_from(s, i);
            assert(ls == seq![text::strip_cr(sub)] + text::lines_from(s, j + 1));
            assert(ls.drop_first() == text::lines_from(s, j + 1));
            assert(ls[0] == text::strip_cr(sub));
            assert(visible(s.skip(i)) == visible(sub) + visible(s.skip(j + 1)));
            assert(visible_lines(ls) == visible(ls[0]) + visible_lines(ls.drop_first()));
        } else {
            assert(s.skip(i) == sub);
            let ls = text::lines_from(s, i);
            assert(ls == seq![sub]);
            assert(ls.drop_first() == Seq::<Seq<char>>::empty());
            assert(visible_lines(Seq::<Seq<char>>::empty()) == Seq::<char>::empty());
            assert(visible_lines(ls) == visible(ls[0]) + visible_lines(ls.drop_first()));
            assert(visible(sub) + Seq::<char>::empty() == visible(sub));
        }
    }
}

/// `collapse_continuations` only moves whitespace: its output shows the
/// same non-whitespace characters, in the same order, as its input.
pub proof fn law_collapse_keeps_visible_text(s: Seq<char>)
    ensures
        visible(collapsed(s)) == visible(s),
{
    lemma_collapsed_visible(text::lines(s), 0, Seq::empty());
    lemma_lines_visible(s, 0);
    assert(s.skip(0) == s);
    assert(text::lines(s).skip(0) == text::lines(s));
    assert(visible(Seq::<char>::empty()) == Seq::<char>::empty());
    assert(Seq::<char>::empty() + visible_lines(text::lines(s)) == visible_lines(text::lines(s)));
}

} // verus!
