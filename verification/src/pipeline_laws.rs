//! Laws of the source pipeline stages: what each stage leaves alone, what
//! it never puts in, and which stages a second run leaves unchanged.

use vstd::prelude::*;
use crate::source::{
    block_code, brace_skip, call_skip, has_block, last_index_of, nested_note, read_quoted,
    skip_char, step_call_end, lemma_step_call_end_bounds, common_indent, cut_line, dedent_defined, drop_bytes, indent_bytes, is_blank, min_indent_from,
    on_boundary, find_block_end, ignore_marker, ignores_from, ignores_replaced, lemma_find_block_end_bounds,
    lemma_wait_resume_bounds, nested_from, newlines_from, newlines_restored, nested_steps_replaced, step_marker, uncommented,
    uncommented_from, wait_marker, wait_resume, waits_from, waits_removed,
};
use crate::text;

verus! {

// ───────────────────────────── strip_comments ─────────────────────────────

/// Whether `s` holds no comment opener: no `/` followed by `/` or `*`.
pub open spec fn comment_free(s: Seq<char>) -> bool {
    forall|k: int|
        #![trigger s[k]]
        0 <= k && k + 1 < s.len() && s[k] == '/' ==> s[k + 1] != '/' && s[k + 1] != '*'
}

/// Whether `s` holds no block comment opener `/*`.
pub open spec fn block_comment_free(s: Seq<char>) -> bool {
    forall|k: int| #![trigger s[k]] 0 <= k && k + 1 < s.len() && s[k] == '/' ==> s[k + 1] != '*'
}

/// Whether `a` can be had from `b` by leaving characters out.
pub open spec fn is_subsequence(a: Seq<char>, b: Seq<char>) -> bool
    decreases b.len(),
{
    if a.len() == 0 {
        true
    } else if b.len() == 0 {
        false
    } else {
        (a[0] == b[0] && is_subsequence(a.drop_first(), b.drop_first())) || is_subsequence(
            a,
            b.drop_first(),
        )
    }
}

/// The number of times `c` occurs in `s`.
pub open spec fn count_char(s: Seq<char>, c: char) -> nat
    decreases s.len(),
{
    if s.len() == 0 {
        0
    } else {
        count_char(s.drop_first(), c) + if s[0] == c {
            1nat
        } else {
            0nat
        }
    }
}

proof fn lemma_uncommented_free(s: Seq<char>, i: int)
    requires
        comment_free(s),
        0 <= i <= s.len(),
    ensures
        uncommented_from(s, i) == s.skip(i),
    decreases s.len() - i,
{
    if i < s.len() {
        lemma_uncommented_free(s, i + 1);
        assert(s.skip(i) == seq![s[i]] + s.skip(i + 1));
    } else {
        assert(s.skip(i) =~= Seq::<char>::empty());
    }
}

proof fn lemma_uncommented_first(s: Seq<char>, i: int)
    requires
        0 <= i < s.len(),
        s[i] != '/',
    ensures
        uncommented_from(s, i).len() > 0,
        uncommented_from(s, i)[0] == s[i],
{
}

proof fn lemma_uncommented_opener_free(s: Seq<char>, i: int)
    requires
        0 <= i,
    ensures
        comment_free(uncommented_from(s, i)),
    decreases s.len() - i,
{
    if i >= s.len() {
    } else if i + 1 < s.len() && s[i] == '/' && s[i + 1] == '*' {
        lemma_find_block_end_bounds(s, i + 2);
        let e = find_block_end(s, i + 2);
        if e + 1 < s.len() {
            lemma_uncommented_opener_free(s, e + 2);
        }
    } else if i + 1 < s.len() && s[i] == '/' && s[i + 1] == '/' {
        text::lemma_find_char_bounds(s, '\n', i);
        let e = text::find_char_from(s, '\n', i);
        if e < s.len() {
            lemma_uncommented_opener_free(s, e + 1);
            let r = uncommented_from(s, e + 1);
            let t = seq!['\n'] + r;
            assert forall|k: int|
                #![trigger t[k]]
                0 <= k && k + 1 < t.len() && t[k] == '/' implies t[k + 1] != '/' && t[k + 1]
                != '*' by {
                assert(t[k] == r[k - 1]);
                assert(t[k + 1] == r[k]);
            }
        }
    } else {
        lemma_uncommented_opener_free(s, i + 1);
        let r = uncommented_from(s, i + 1);
        let t = seq![s[i]] + r;
        assert forall|k: int|
            #![trigger t[k]]
            0 <= k && k + 1 < t.len() && t[k] == '/' implies t[k + 1] != '/' && t[k + 1]
            != '*' by {
            if k == 0 {
                lemma_uncommented_first(s, i + 1);
            } else {
                assert(t[k] == r[k - 1]);
                assert(t[k + 1] == r[k]);
            }
        }
    }
}

/// Text without comment openers passes `strip_comments` unchanged.
pub proof fn law_comment_free_unchanged(s: Seq<char>)
    requires
        comment_free(s),
    ensures
        uncommented(s) == s,
{
    lemma_uncommented_free(s, 0);
    assert(s.skip(0) == s);
}

/// `strip_comments` leaves no comment opener behind, so a second run
/// changes nothing.
pub proof fn law_strip_comments_idempotent(s: Seq<char>)
    ensures
        comment_free(uncommented(s)),
        uncommented(uncommented(s)) == uncommented(s),
{
    lemma_uncommented_opener_free(s, 0);
    law_comment_free_unchanged(uncommented(s));
}

proof fn lemma_subsequence_cons(x: char, a: Seq<char>, b: Seq<char>)
    requires
        is_subsequence(a, b),
    ensures
        is_subsequence(seq![x] + a, seq![x] + b),
{
    assert((seq![x] + a).drop_first() == a);
    assert((seq![x] + b).drop_first() == b);
}

proof fn lemma_subsequence_prefix(a: Seq<char>, c: Seq<char>, b: Seq<char>)
    requires
        is_subsequence(a, b),
    ensures
        is_subsequence(a, c + b),
    decreases c.len(),
{
    if c.len() > 0 {
        lemma_subsequence_prefix(a, c.drop_first(), b);
        assert((c + b).drop_first() == c.drop_first() + b);
    } else {
        assert(c + b == b);
    }
}

proof fn lemma_uncommented_subsequence(s: Seq<char>, i: int)
    requires
        0 <= i <= s.len(),
    ensures
        is_subsequence(uncommented_from(s, i), s.skip(i)),
    decreases s.len() - i,
{
    if i >= s.len() {
    } else if i + 1 < s.len() && s[i] == '/' && s[i + 1] == '*' {
        lemma_find_block_end_bounds(s, i + 2);
        let e = find_block_end(s, i + 2);
        if e + 1 < s.len() {
            lemma_uncommented_subsequence(s, e + 2);
            lemma_subsequence_prefix(uncommented_from(s, e + 2), s.subrange(i, e + 2), s.skip(e + 2));
            assert(s.subrange(i, e + 2) + s.skip(e + 2) == s.skip(i));
        }
    } else if i + 1 < s.len() && s[i] == '/' && s[i + 1] == '/' {
        text::lemma_find_char_bounds(s, '\n', i);
        let e = text::find_char_from(s, '\n', i);
        if e < s.len() {
            lemma_uncommented_subsequence(s, e + 1);
            lemma_subsequence_cons('\n', uncommented_from(s, e + 1), s.skip(e + 1));
            lemma_subsequence_prefix(
                seq!['\n'] + uncommented_from(s, e + 1),
                s.subrange(i, e),
                seq!['\n'] + s.skip(e + 1),
            );
            assert(s.subrange(i, e) + (seq!['\n'] + s.skip(e + 1)) == s.skip(i));
        }
    } else {
        lemma_uncommented_subsequence(s, i + 1);
        lemma_subsequence_cons(s[i], uncommented_from(s, i + 1), s.skip(i + 1));
        assert(seq![s[i]] + s.skip(i + 1) == s.skip(i));
    }
}

/// `strip_comments` only leaves characters out: it inserts and alters none.
pub proof fn law_strip_comments_subsequence(s: Seq<char>)
    ensures
        is_subsequence(uncommented(s), s),
{
    lemma_uncommented_subsequence(s, 0);
    assert(s.skip(0) == s);
}

proof fn lemma_count_concat(a: Seq<char>, b: Seq<char>, c: char)
    ensures
        count_char(a + b, c) == count_char(a, c) + count_char(b, c),
    decreases a.len(),
{
    if a.len() > 0 {
        lemma_count_concat(a.drop_first(), b, c);
        assert((a + b).drop_first() == a.drop_first() + b);
    } else {
        assert(a + b == b);
    }
}

proof fn lemma_count_absent(a: Seq<char>, c: char)
    requires
        forall|k: int| 0 <= k < a.len() ==> #[trigger] a[k] != c,
    ensures
        count_char(a, c) == 0,
    decreases a.len(),
{
    if a.len() > 0 {
        assert forall|k: int| 0 <= k < a.drop_first().len() implies #[trigger] a.drop_first()[k]
            != c by {
            assert(a.drop_first()[k] == a[k + 1]);
        }
        lemma_count_absent(a.drop_first(), c);
    }
}

proof fn lemma_uncommented_newlines(s: Seq<char>, i: int)
    requires
        block_comment_free(s),
        0 <= i <= s.len(),
    ensures
        count_char(uncommented_from(s, i), '\n') == count_char(s.skip(i), '\n'),
    decreases s.len() - i,
{
    if i >= s.len() {
    } else if i + 1 < s.len() && s[i] == '/' && s[i + 1] == '/' {
        text::lemma_find_char_bounds(s, '\n', i);
        let e = text::find_char_from(s, '\n', i);
        assert forall|k: int| 0 <= k < s.subrange(i, e).len() implies #[trigger] s.subrange(
            i,
            e,
        )[k] != '\n' by {
            assert(s.subrange(i, e)[k] == s[i + k]);
        }
        lemma_count_absent(s.subrange(i, e), '\n');
        if e < s.len() {
            lemma_uncommented_newlines(s, e + 1);
            assert(s.skip(i) == s.subrange(i, e) + (seq!['\n'] + s.skip(e + 1)));
            lemma_count_concat(s.subrange(i, e), seq!['\n'] + s.skip(e + 1), '\n');
            lemma_count_concat(seq!['\n'], s.skip(e + 1), '\n');
            lemma_count_concat(seq!['\n'], uncommented_from(s, e + 1), '\n');
        } else {
            assert(s.skip(i) == s.subrange(i, e));
        }
    } else {
        assert(!(i + 1 < s.len() && s[i] == '/' && s[i + 1] == '*'));
        lemma_uncommented_newlines(s, i + 1);
        assert(s.skip(i) == seq![s[i]] + s.skip(i + 1));
        lemma_count_concat(seq![s[i]], s.skip(i + 1), '\n');
        lemma_count_concat(seq![s[i]], uncommented_from(s, i + 1), '\n');
    }
}

/// Without block comments, `strip_comments` keeps every line ending: a
/// line comment goes up to its line ending, not through it.
pub proof fn law_strip_comments_keeps_lines(s: Seq<char>)
    requires
        block_comment_free(s),
    ensures
        count_char(uncommented(s), '\n') == count_char(s, '\n'),
{
    lemma_uncommented_newlines(s, 0);
    assert(s.skip(0) == s);
}

// ─────────────────────── strip_ignores, strip_nested_steps ───────────────────────

/// Whether `m` occurs nowhere in `s`.
pub open spec fn lacks(s: Seq<char>, m: Seq<char>) -> bool {
    forall|k: int| !#[trigger] text::occurs_at(s, k, m)
}

proof fn lemma_ignores_unmarked(s: Seq<char>, i: int, out: Seq<char>)
    requires
        lacks(s, ignore_marker()),
        0 <= i <= s.len(),
    ensures
        ignores_from(s, i, out) == out + s.skip(i),
    decreases s.len() - i,
{
    if i < s.len() {
        assert(!text::occurs_at(s, i, ignore_marker()));
        lemma_ignores_unmarked(s, i + 1, out.push(s[i]));
        assert(out.push(s[i]) + s.skip(i + 1) == out + s.skip(i));
    } else {
        assert(out + s.skip(i) == out);
    }
}

/// Text without an `ignore![` passes `strip_ignores` unchanged.
pub proof fn law_strip_ignores_unmarked(s: Seq<char>)
    requires
        lacks(s, ignore_marker()),
    ensures
        ignores_replaced(s) == s,
{
    lemma_ignores_unmarked(s, 0, Seq::empty());
    assert(Seq::<char>::empty() + s.skip(0) == s);
}

proof fn lemma_nested_unmarked(s: Seq<char>, i: int, out: Seq<char>)
    requires
        lacks(s, step_marker()),
        0 <= i <= s.len(),
    ensures
        nested_from(s, i, out) == out + s.skip(i),
    decreases s.len() - i,
{
    if i < s.len() {
        assert(!text::occurs_at(s, i, step_marker()));
        lemma_nested_unmarked(s, i + 1, out.push(s[i]));
        assert(out.push(s[i]) + s.skip(i + 1) == out + s.skip(i));
    } else {
        assert(out + s.skip(i) == out);
    }
}

/// Text without a `step![` passes `strip_nested_steps` unchanged.
pub proof fn law_strip_nested_steps_unmarked(s: Seq<char>)
    requires
        lacks(s, step_marker()),
    ensures
        nested_steps_replaced(s) == s,
{
    lemma_nested_unmarked(s, 0, Seq::empty());
    assert(Seq::<char>::empty() + s.skip(0) == s);
}

// ──────────────────────────────── strip_waits ────────────────────────────────

proof fn lemma_waits_keep_output(s: Seq<char>, k: int, out: Seq<char>)
    requires
        0 <= k,
    ensures
        waits_from(s, k, out).len() >= out.len(),
        waits_from(s, k, out).take(out.len() as int) == out,
    decreases s.len() - k,
{
    if k < s.len() {
        let p = text::find_from(s, wait_marker(), k);
        text::lemma_find_from_bounds(s, wait_marker(), k);
        if p >= s.len() {
            assert((out + s.subrange(k, s.len() as int)).take(out.len() as int) == out);
        } else {
            lemma_wait_resume_bounds(s, p);
            let out2 = out + s.subrange(k, p);
            lemma_waits_keep_output(s, wait_resume(s, p), out2);
            assert(out2.take(out.len() as int) == out);
            assert(waits_from(s, k, out).take(out.len() as int) == waits_from(s, k, out).take(
                out2.len() as int,
            ).take(out.len() as int));
        }
    }
}

/// `strip_waits` keeps the text before the first `wait![` as it is, and
/// text without a `wait![` passes unchanged.
pub proof fn law_strip_waits_keeps_prefix(s: Seq<char>)
    ensures
        ({
            let p = text::find_from(s, wait_marker(), 0);
            &&& p >= s.len() ==> waits_removed(s) == s
            &&& waits_removed(s).len() >= p
            &&& waits_removed(s).take(p) == s.take(p)
        }),
{
    let p = text::find_from(s, wait_marker(), 0);
    text::lemma_find_from_bounds(s, wait_marker(), 0);
    if s.len() == 0 {
        assert(s.take(p) == s);
        assert(waits_removed(s).take(p) =~= Seq::<char>::empty());
    } else if p >= s.len() {
        assert(Seq::<char>::empty() + s.subrange(0, s.len() as int) == s);
        assert(s.take(p) == s);
    } else {
        lemma_wait_resume_bounds(s, p);
        lemma_waits_keep_output(s, wait_resume(s, p), Seq::<char>::empty() + s.subrange(0, p));
        assert(Seq::<char>::empty() + s.subrange(0, p) == s.take(p));
    }
}

// ────────────────────────────── restore_newlines ──────────────────────────────

/// Whether `t` starts, past any spaces, with a line ending or a `}`, or is
/// only spaces.
pub open spec fn ends_line(t: Seq<char>) -> bool {
    let j = text::skip_run_from(t, ' ', 0);
    j >= t.len() || t[j] == '\n' || t[j] == '}'
}

/// Whether every `;` of `s` is followed, past any spaces, by a line ending,
/// a `}` or the end of the text.
pub open spec fn statements_end_lines(s: Seq<char>) -> bool {
    forall|k: int| 0 <= k < s.len() && #[trigger] s[k] == ';' ==> ends_line(s.skip(k + 1))
}

proof fn lemma_skip_run_shift(s: Seq<char>, c: char, i: int)
    requires
        0 <= i <= s.len(),
    ensures
        text::skip_run_from(s, c, i) == i + text::skip_run_from(s.skip(i), c, 0),
    decreases s.len() - i,
{
    if i < s.len() && s[i] == c {
        lemma_skip_run_shift(s, c, i + 1);
        lemma_skip_run_shift(s.skip(i), c, 1);
        assert(s.skip(i).skip(1) == s.skip(i + 1));
    }
}

proof fn lemma_skip_run_at(t: Seq<char>, c: char, a: int, b: int)
    requires
        0 <= a <= b <= t.len(),
        forall|k: int| a <= k < b ==> #[trigger] t[k] == c,
        b == t.len() || t[b] != c,
    ensures
        text::skip_run_from(t, c, a) == b,
    decreases b - a,
{
    if a < b {
        lemma_skip_run_at(t, c, a + 1, b);
    }
}

proof fn lemma_newlines_acc(s: Seq<char>, i: int, out: Seq<char>)
    ensures
        newlines_from(s, i, out) == out + newlines_from(s, i, Seq::empty()),
    decreases s.len() - i,
{
    if i < 0 || i >= s.len() {
        assert(out + Seq::<char>::empty() == out);
    } else if s[i] == ';' {
        let j = text::skip_run_from(s, ' ', i + 1);
        if j < s.len() && s[j] != '\n' && s[j] != '}' {
            text::lemma_skip_run_bounds(s, ' ', i + 1);
            lemma_newlines_acc(s, j, out + seq![';', '\n']);
            lemma_newlines_acc(s, j, Seq::<char>::empty() + seq![';', '\n']);
            assert(out + seq![';', '\n'] + newlines_from(s, j, Seq::empty()) == out + (
            Seq::<char>::empty() + seq![';', '\n'] + newlines_from(s, j, Seq::empty())));
        } else {
            lemma_newlines_acc(s, i + 1, out.push(';'));
            lemma_newlines_acc(s, i + 1, Seq::<char>::empty().push(';'));
            assert(out.push(';') + newlines_from(s, i + 1, Seq::empty()) == out + (
            Seq::<char>::empty().push(';') + newlines_from(s, i + 1, Seq::empty())));
        }
    } else {
        lemma_newlines_acc(s, i + 1, out.push(s[i]));
        lemma_newlines_acc(s, i + 1, Seq::<char>::empty().push(s[i]));
        assert(out.push(s[i]) + newlines_from(s, i + 1, Seq::empty()) == out + (
        Seq::<char>::empty().push(s[i]) + newlines_from(s, i + 1, Seq::empty())));
    }
}

proof fn lemma_newlines_first(s: Seq<char>, i: int)
    requires
        0 <= i < s.len(),
    ensures
        newlines_from(s, i, Seq::empty()).len() > 0,
        newlines_from(s, i, Seq::empty())[0] == s[i],
{
    if s[i] == ';' {
        let j = text::skip_run_from(s, ' ', i + 1);
        if j < s.len() && s[j] != '\n' && s[j] != '}' {
            text::lemma_skip_run_bounds(s, ' ', i + 1);
            lemma_newlines_acc(s, j, seq![';', '\n']);
            assert(Seq::<char>::empty() + seq![';', '\n'] == seq![';', '\n']);
        } else {
            lemma_newlines_acc(s, i + 1, Seq::<char>::empty().push(';'));
        }
    } else {
        lemma_newlines_acc(s, i + 1, Seq::<char>::empty().push(s[i]));
    }
}

proof fn lemma_newlines_spaces(s: Seq<char>, i: int, j: int)
    requires
        0 <= i <= j <= s.len(),
        forall|k: int| i <= k < j ==> #[trigger] s[k] == ' ',
    ensures
        newlines_from(s, i, Seq::empty()) == s.subrange(i, j) + newlines_from(s, j, Seq::empty()),
    decreases j - i,
{
    if i < j {
        lemma_newlines_spaces(s, i + 1, j);
        lemma_newlines_acc(s, i + 1, Seq::<char>::empty().push(s[i]));
        assert(s.subrange(i, j) == Seq::<char>::empty().push(s[i]) + s.subrange(i + 1, j));
    } else {
        assert(s.subrange(i, j) + newlines_from(s, j, Seq::empty()) == newlines_from(
            s,
            j,
            Seq::empty(),
        ));
    }
}

proof fn lemma_ends_lines_cons(x: char, r: Seq<char>)
    requires
        statements_end_lines(r),
        x == ';' ==> ends_line(r),
    ensures
        statements_end_lines(seq![x] + r),
{
    let t = seq![x] + r;
    assert forall|k: int| 0 <= k < t.len() && #[trigger] t[k] == ';' implies ends_line(
        t.skip(k + 1),
    ) by {
        if k == 0 {
            assert(t.skip(1) == r);
        } else {
            assert(t[k] == r[k - 1]);
            assert(t.skip(k + 1) == r.skip(k));
        }
    }
}

proof fn lemma_newlines_end_lines(s: Seq<char>, i: int)
    requires
        0 <= i,
    ensures
        statements_end_lines(newlines_from(s, i, Seq::empty())),
    decreases s.len() - i,
{
    if i >= s.len() {
    } else if s[i] == ';' {
        let j = text::skip_run_from(s, ' ', i + 1);
        text::lemma_skip_run_bounds(s, ' ', i + 1);
        if j < s.len() && s[j] != '\n' && s[j] != '}' {
            lemma_newlines_end_lines(s, j);
            lemma_newlines_acc(s, j, seq![';', '\n']);
            let r = newlines_from(s, j, Seq::empty());
            lemma_ends_lines_cons('\n', r);
            assert(text::skip_run_from(seq!['\n'] + r, ' ', 0) == 0);
            lemma_ends_lines_cons(';', seq!['\n'] + r);
            assert(Seq::<char>::empty() + seq![';', '\n'] + r == seq![';'] + (seq!['\n'] + r));
        } else {
            lemma_newlines_end_lines(s, i + 1);
            lemma_newlines_acc(s, i + 1, Seq::<char>::empty().push(';'));
            let r = newlines_from(s, i + 1, Seq::empty());
            assert forall|k: int| i + 1 <= k < j implies #[trigger] s[k] == ' ' by {
                lemma_skip_run_prefix(s, ' ', i + 1, k);
            }
            lemma_newlines_spaces(s, i + 1, j);
            let n = j - (i + 1);
            assert forall|k: int| 0 <= k < n implies #[trigger] r[k] == ' ' by {
                assert(r[k] == s.subrange(i + 1, j)[k]);
                assert(s[i + 1 + k] == ' ');
            }
            if j < s.len() {
                lemma_newlines_first(s, j);
                assert(r[n] == newlines_from(s, j, Seq::empty())[0]);
            } else {
                assert(r.len() == n);
            }
            lemma_skip_run_at(r, ' ', 0, n);
            lemma_ends_lines_cons(';', r);
            assert(Seq::<char>::empty().push(';') + r == seq![';'] + r);
        }
    } else {
        lemma_newlines_end_lines(s, i + 1);
        lemma_newlines_acc(s, i + 1, Seq::<char>::empty().push(s[i]));
        lemma_ends_lines_cons(s[i], newlines_from(s, i + 1, Seq::empty()));
        assert(Seq::<char>::empty().push(s[i]) + newlines_from(s, i + 1, Seq::empty()) == seq![
            s[i],
        ] + newlines_from(s, i + 1, Seq::empty()));
    }
}

proof fn lemma_skip_run_prefix(s: Seq<char>, c: char, i: int, k: int)
    requires
        0 <= i <= k < text::skip_run_from(s, c, i),
    ensures
        s[k] == c,
    decreases k - i,
{
    if i < k {
        lemma_skip_run_prefix(s, c, i + 1, k);
    }
}

proof fn lemma_newlines_fixed(s: Seq<char>, i: int, out: Seq<char>)
    requires
        statements_end_lines(s),
        0 <= i <= s.len(),
    ensures
        newlines_from(s, i, out) == out + s.skip(i),
    decreases s.len() - i,
{
    if i < s.len() {
        if s[i] == ';' {
            let j = text::skip_run_from(s, ' ', i + 1);
            lemma_skip_run_shift(s, ' ', i + 1);
            text::lemma_skip_run_bounds(s, ' ', i + 1);
            assert(ends_line(s.skip(i + 1)));
            if j < s.len() {
                assert(s.skip(i + 1)[j - (i + 1)] == s[j]);
            }
        }
        lemma_newlines_fixed(s, i + 1, out.push(s[i]));
        assert(out.push(s[i]) + s.skip(i + 1) == out + s.skip(i));
    } else {
        assert(out + s.skip(i) == out);
    }
}

/// After `restore_newlines`, every `;` is followed, past any spaces, by a
/// line ending, a `}` or the end of the text; so a second run changes
/// nothing.
pub proof fn law_restore_newlines_idempotent(s: Seq<char>)
    ensures
        statements_end_lines(newlines_restored(s)),
        newlines_restored(newlines_restored(s)) == newlines_restored(s),
{
    lemma_newlines_end_lines(s, 0);
    lemma_newlines_acc(s, 0, Seq::empty());
    let r = newlines_restored(s);
    lemma_newlines_fixed(r, 0, Seq::empty());
    assert(Seq::<char>::empty() + r.skip(0) == r);
}

// ─────────────────────────────────── dedent ───────────────────────────────────

/// Whether every whitespace character of `s` is ASCII.
pub open spec fn ascii_whitespace(s: Seq<char>) -> bool {
    forall|k: int| 0 <= k < s.len() && text::is_ws(#[trigger] s[k]) ==> (s[k] as int) < 0x80
}

proof fn lemma_utf8_concat(a: Seq<char>, b: Seq<char>)
    ensures
        text::utf8_len(a + b) == text::utf8_len(a) + text::utf8_len(b),
    decreases b.len(),
{
    if b.len() == 0 {
        assert(a + b == a);
    } else {
        lemma_utf8_concat(a, b.drop_last());
        assert((a + b).drop_last() == a + b.drop_last());
        assert((a + b).last() == b.last());
    }
}

proof fn lemma_utf8_single_bytes(l: Seq<char>)
    requires
        forall|k: int| 0 <= k < l.len() ==> text::char_len(#[trigger] l[k]) == 1,
    ensures
        text::utf8_len(l) == l.len(),
    decreases l.len(),
{
    if l.len() > 0 {
        assert forall|k: int| 0 <= k < l.drop_last().len() implies text::char_len(
            #[trigger] l.drop_last()[k],
        ) == 1 by {
            assert(l.drop_last()[k] == l[k]);
        }
        lemma_utf8_single_bytes(l.drop_last());
        assert(text::char_len(l[l.len() - 1]) == 1);
    }
}

proof fn lemma_drop_bytes_prefix(l: Seq<char>, n: int)
    requires
        0 <= n <= l.len(),
    ensures
        drop_bytes(l, text::utf8_len(l.take(n)) as int) == l.skip(n),
    decreases n,
{
    if n == 0 {
        assert(l.take(0) =~= Seq::<char>::empty());
        assert(l.skip(0) == l);
    } else {
        let t = l.drop_first();
        assert(l.take(n) == seq![l[0]] + t.take(n - 1));
        lemma_utf8_concat(seq![l[0]], t.take(n - 1));
        assert(seq![l[0]].drop_last() =~= Seq::<char>::empty());
        assert(text::utf8_len(Seq::<char>::empty()) == 0);
        assert(seq![l[0]].last() == l[0]);
        assert(text::utf8_len(seq![l[0]]) == text::char_len(l[0]));
        lemma_drop_bytes_prefix(t, n - 1);
        assert(t.skip(n - 1) == l.skip(n));
    }
}

proof fn lemma_on_boundary_single_bytes(l: Seq<char>, m: int)
    requires
        0 <= m <= l.len(),
        forall|k: int| 0 <= k < m ==> text::char_len(#[trigger] l[k]) == 1,
    ensures
        on_boundary(l, m),
    decreases m,
{
    if m > 0 {
        assert forall|k: int| 0 <= k < m - 1 implies text::char_len(#[trigger] l.drop_first()[k])
            == 1 by {
            assert(l.drop_first()[k] == l[k + 1]);
        }
        assert(text::char_len(l[0]) == 1);
        lemma_on_boundary_single_bytes(l.drop_first(), m - 1);
    }
}

proof fn lemma_min_indent(ls: Seq<Seq<char>>, k: int, acc: Option<nat>)
    requires
        0 <= k,
    ensures
        acc is Some ==> min_indent_from(ls, k, acc) is Some && min_indent_from(ls, k, acc)->0
            <= acc->0,
        forall|j: int|
            k <= j < ls.len() && !is_blank(#[trigger] ls[j]) ==> min_indent_from(ls, k, acc) is Some
                && min_indent_from(ls, k, acc)->0 <= indent_bytes(ls[j]),
        min_indent_from(ls, k, acc) is Some ==> min_indent_from(ls, k, acc) == acc || exists|j: int|
            k <= j < ls.len() && !is_blank(#[trigger] ls[j]) && indent_bytes(ls[j])
                == min_indent_from(ls, k, acc)->0,
    decreases ls.len() - k,
{
    if k < ls.len() {
        if is_blank(ls[k]) {
            lemma_min_indent(ls, k + 1, acc);
        } else {
            let w = indent_bytes(ls[k]);
            let m = match acc {
                Some(a) => if a <= w {
                    a
                } else {
                    w
                },
                None => w,
            };
            lemma_min_indent(ls, k + 1, Some(m));
            let r = min_indent_from(ls, k, acc);
            if r != acc && r != Some(m) {
                let j = choose|j: int|
                    k + 1 <= j < ls.len() && !is_blank(#[trigger] ls[j]) && indent_bytes(ls[j])
                        == r->0;
                assert(k <= j);
            }
            if r == Some(m) && m == w {
                assert(!is_blank(ls[k]) && indent_bytes(ls[k]) == r->0);
            }
        }
    }
}

proof fn lemma_lines_ascii(s: Seq<char>, i: int)
    requires
        ascii_whitespace(s),
        0 <= i,
    ensures
        forall|k: int|
            0 <= k < text::lines_from(s, i).len() ==> ascii_whitespace(
                #[trigger] text::lines_from(s, i)[k],
            ),
    decreases s.len() - i,
{
    if i < s.len() {
        let j = text::find_char_from(s, '\n', i);
        text::lemma_find_char_bounds(s, '\n', i);
        let ls = text::lines_from(s, i);
        if j < s.len() {
            lemma_lines_ascii(s, j + 1);
            let l = text::strip_cr(s.subrange(i, j));
            assert(ascii_whitespace(l)) by {
                assert forall|q: int| 0 <= q < l.len() && text::is_ws(#[trigger] l[q]) implies (
                l[q] as int) < 0x80 by {
                    assert(l[q] == s[i + q]);
                }
            }
            assert forall|k: int| 0 <= k < ls.len() implies ascii_whitespace(#[trigger] ls[k]) by {
                if k > 0 {
                    assert(ls[k] == text::lines_from(s, j + 1)[k - 1]);
                }
            }
        } else {
            let l = s.subrange(i, s.len() as int);
            assert(ascii_whitespace(l)) by {
                assert forall|q: int| 0 <= q < l.len() && text::is_ws(#[trigger] l[q]) implies (
                l[q] as int) < 0x80 by {
                    assert(l[q] == s[i + q]);
                }
            }
        }
    }
}

/// Where all whitespace is ASCII, `dedent` can always cut its lines: the
/// common indentation ends on a character boundary of every line that is
/// longer.
pub proof fn law_ascii_whitespace_dedents(s: Seq<char>)
    requires
        ascii_whitespace(s),
    ensures
        dedent_defined(s),
{
    let ls = text::lines(s);
    let m = common_indent(ls);
    lemma_lines_ascii(s, 0);
    lemma_min_indent(ls, 0, None);
    assert forall|k: int| 0 <= k < ls.len() && text::utf8_len(#[trigger] ls[k]) > m implies on_boundary(
        ls[k],
        m as int,
    ) by {
        let l = ls[k];
        assert(ascii_whitespace(l));
        let w = text::skip_ws_from(l, 0);
        text::lemma_skip_ws_bounds(l, 0);
        assert forall|q: int| 0 <= q < w implies text::char_len(#[trigger] l[q]) == 1 by {
            assert(text::is_ws(l[q]));
        }
        assert forall|q: int| 0 <= q < l.take(w).len() implies text::char_len(
            #[trigger] l.take(w)[q],
        ) == 1 by {
            assert(l.take(w)[q] == l[q]);
        }
        lemma_utf8_single_bytes(l.take(w));
        if is_blank(l) {
            assert(l.take(w) == l);
            lemma_on_boundary_single_bytes(l, m as int);
        } else {
            assert(m <= indent_bytes(l));
            lemma_on_boundary_single_bytes(l, m as int);
        }
    }
}

/// Where some line holds more than whitespace, `dedent` leaves a non-blank
/// line that starts with a character other than whitespace: the smallest
/// indentation is removed entirely.
pub proof fn law_dedent_unindents_least_indented(s: Seq<char>)
    requires
        exists|j: int| 0 <= j < text::lines(s).len() && !is_blank(#[trigger] text::lines(s)[j]),
    ensures
        exists|j: int|
            0 <= j < text::lines(s).len() && !is_blank(#[trigger] text::lines(s)[j]) && ({
                let c = cut_line(text::lines(s)[j], common_indent(text::lines(s)));
                c.len() > 0 && !text::is_ws(c[0])
            }),
{
    let ls = text::lines(s);
    // A non-blank line: the smallest indentation then belongs to some line.
    let j0 = choose|j: int| 0 <= j < ls.len() && !is_blank(#[trigger] ls[j]);
    lemma_min_indent(ls, 0, None);
    assert(min_indent_from(ls, 0, None) is Some && !is_blank(ls[j0]));
    let m = common_indent(ls);
    let j = choose|j: int|
        0 <= j < ls.len() && !is_blank(#[trigger] ls[j]) && indent_bytes(ls[j]) == m;
    let l = ls[j];
    let w = text::skip_ws_from(l, 0);
    text::lemma_skip_ws_bounds(l, 0);
    assert(l.take(w) + l.skip(w) == l);
    lemma_utf8_concat(l.take(w), l.skip(w));
    assert(text::utf8_len(l.skip(w)) >= 1);
    lemma_drop_bytes_prefix(l, w);
    assert(cut_line(l, m) == l.skip(w));
    assert(l.skip(w)[0] == l[w]);
}

// ───────────────────────── braced blocks of ignore! calls ─────────────────────────

/// The number of `{` minus the number of `}` in `s[a..b]`.
pub open spec fn brace_balance(s: Seq<char>, a: int, b: int) -> int
    decreases b - a,
{
    if a >= b {
        0
    } else {
        (if s[a] == '{' {
            1int
        } else if s[a] == '}' {
            -1int
        } else {
            0int
        }) + brace_balance(s, a + 1, b)
    }
}

proof fn lemma_brace_skip_balance(s: Seq<char>, j: int, d: int)
    requires
        0 <= j <= s.len(),
        d > 0,
    ensures
        ({
            let k = brace_skip(s, j, d);
            &&& j <= k <= s.len()
            &&& forall|m: int| j <= m < k ==> d + #[trigger] brace_balance(s, j, m) > 0
            &&& (j < k && s[k - 1] == '}' && d + brace_balance(s, j, k) == 0) || (k == s.len() && d
                + brace_balance(s, j, k) > 0)
        }),
    decreases s.len() - j,
{
    if j < s.len() {
        let dd = if s[j] == '{' {
            d + 1
        } else if s[j] == '}' {
            d - 1
        } else {
            d
        };
        let k = brace_skip(s, j, d);
        if dd > 0 {
            lemma_brace_skip_balance(s, j + 1, dd);
            assert forall|m: int| j <= m < k implies d + #[trigger] brace_balance(s, j, m) > 0 by {
                if m > j {
                    assert(brace_balance(s, j, m) == dd - d + brace_balance(s, j + 1, m));
                    assert(dd + brace_balance(s, j + 1, m) > 0);
                }
            }
            assert(brace_balance(s, j, k) == dd - d + brace_balance(s, j + 1, k));
        } else {
            assert(s[j] == '}' && dd == 0);
            assert(brace_skip(s, j + 1, 0) == j + 1);
            assert(k == j + 1);
            assert(brace_balance(s, j + 1, j + 1) == 0);
            assert forall|m: int| j <= m < k implies d + #[trigger] brace_balance(s, j, m) > 0 by {
                assert(m == j);
            }
        }
    }
}

/// The braced block of an `ignore!` call ends at the brace that matches its
/// opening one: reading on from just after the `{`, the count of `{` minus
/// `}` never drops below zero before the end, and the block ends right
/// after the `}` that takes it below zero; where no `}` does, the block
/// runs to the end of the text.
pub proof fn law_ignored_block_ends_at_matching_brace(s: Seq<char>, j: int)
    requires
        0 <= j <= s.len(),
    ensures
        ({
            let k = brace_skip(s, j, 1);
            &&& j <= k <= s.len()
            &&& forall|m: int| j <= m < k ==> #[trigger] brace_balance(s, j, m) >= 0
            &&& (j < k && s[k - 1] == '}' && brace_balance(s, j, k) == -1) || (k == s.len()
                && brace_balance(s, j, k) >= 0)
        }),
{
    lemma_brace_skip_balance(s, j, 1);
}

// ──────────────────────────────── step blocks ────────────────────────────────

/// The code that a step shows lies between the first `{` of its arguments
/// and the last `}`, whatever braces the code itself holds.
pub proof fn law_block_is_between_first_and_last_brace(d: Seq<char>, c: Seq<char>)
    requires
        forall|k: int| 0 <= k < d.len() ==> #[trigger] d[k] != '{',
        c.len() == 0 || c[0] != '\n',
    ensures
        has_block(d + seq!['{'] + c + seq!['}']),
        block_code(d + seq!['{'] + c + seq!['}']) == c,
{
    let raw = d + seq!['{'] + c + seq!['}'];
    let n = d.len() as int;
    assert(raw[n] == '{');
    text::lemma_find_char_bounds(raw, '{', 0);
    let f = text::find_char_from(raw, '{', 0);
    if f < n {
        assert(raw[f] == d[f]);
    }
    assert(f == n);
    assert(raw.last() == '}');
    assert(last_index_of(raw, '}') == raw.len() - 1);
    assert(raw.subrange(n + 1, raw.len() - 1) == c);
    assert(text::skip_run_from(c, '\n', 0) == 0);
    assert(c.skip(0) == c);
}

// ──────────────────────────── nested step! calls ────────────────────────────

proof fn lemma_skip_ws_shift(a: Seq<char>, b: Seq<char>, j: int)
    requires
        0 <= j <= b.len(),
    ensures
        text::skip_ws_from(a + b, a.len() + j) == a.len() + text::skip_ws_from(b, j),
    decreases b.len() - j,
{
    if j < b.len() {
        assert((a + b)[a.len() + j] == b[j]);
        lemma_skip_ws_shift(a, b, j + 1);
    }
}

proof fn lemma_read_quoted_shift(a: Seq<char>, b: Seq<char>, j: int, acc: Seq<char>)
    requires
        0 <= j <= b.len(),
    ensures
        read_quoted(a + b, a.len() + j, acc) == (
            a.len() + read_quoted(b, j, acc).0,
            read_quoted(b, j, acc).1,
        ),
    decreases b.len() - j,
{
    if j < b.len() {
        assert((a + b)[a.len() + j] == b[j]);
        if b[j] != '"' {
            if b[j] == '\\' && j + 1 < b.len() {
                assert((a + b)[a.len() + j + 1] == b[j + 1]);
                lemma_read_quoted_shift(a, b, j + 2, acc.push(b[j + 1]));
            } else {
                lemma_read_quoted_shift(a, b, j + 1, acc.push(b[j]));
            }
        }
    }
}

proof fn lemma_call_skip_shift(
    a: Seq<char>,
    b: Seq<char>,
    j: int,
    depth: int,
    in_str: bool,
    in_char: bool,
)
    requires
        0 <= j <= b.len(),
    ensures
        call_skip(a + b, a.len() + j, depth, in_str, in_char) == a.len() + call_skip(
            b,
            j,
            depth,
            in_str,
            in_char,
        ),
    decreases b.len() - j,
{
    if j < b.len() && depth > 0 {
        let c = b[j];
        assert((a + b)[a.len() + j] == c);
        if c == '"' && !in_char {
            lemma_call_skip_shift(a, b, j + 1, depth, !in_str, in_char);
        } else if c == '\'' && !in_str {
            lemma_call_skip_shift(a, b, j + 1, depth, in_str, !in_char);
        } else if c == '\\' && (in_str || in_char) {
            if j + 2 <= b.len() {
                lemma_call_skip_shift(a, b, j + 2, depth, in_str, in_char);
            }
        } else if crate::source::is_open_bracket(c) && !in_str && !in_char {
            lemma_call_skip_shift(a, b, j + 1, depth + 1, in_str, in_char);
        } else if crate::source::is_close_bracket(c) && !in_str && !in_char {
            if depth != 1 {
                lemma_call_skip_shift(a, b, j + 1, depth - 1, in_str, in_char);
            }
        } else {
            lemma_call_skip_shift(a, b, j + 1, depth, in_str, in_char);
        }
    }
}

proof fn lemma_step_call_end_shift(a: Seq<char>, b: Seq<char>, i: int)
    requires
        0 <= i,
        i + 6 <= b.len(),
    ensures
        step_call_end(a + b, a.len() + i) == (
            a.len() + step_call_end(b, i).0,
            step_call_end(b, i).1,
        ),
{
    let s = a + b;
    let n = a.len() as int;
    lemma_skip_ws_shift(a, b, i + 6);
    text::lemma_skip_ws_bounds(b, i + 6);
    let j0 = text::skip_ws_from(b, i + 6);
    if j0 < b.len() {
        assert(s[n + j0] == b[j0]);
    }
    let (j1, desc) = if 0 <= j0 < b.len() && b[j0] == '"' {
        lemma_read_quoted_shift(a, b, j0 + 1, Seq::empty());
        crate::source::lemma_read_quoted_bounds(b, j0 + 1, Seq::empty());
        read_quoted(b, j0 + 1, Seq::empty())
    } else {
        (j0, Seq::<char>::empty())
    };
    lemma_call_skip_shift(a, b, j1, 1, false, false);
    crate::source::lemma_call_skip_bounds(b, j1, 1, false, false);
    let j2 = call_skip(b, j1, 1, false, false);
    lemma_skip_ws_shift(a, b, j2);
    text::lemma_skip_ws_bounds(b, j2);
    let j3 = text::skip_ws_from(b, j2);
    if j3 < b.len() {
        assert(s[n + j3] == b[j3]);
    }
    assert(skip_char(s, n + j3, ';') == n + skip_char(b, j3, ';'));
}

proof fn lemma_nested_shift(a: Seq<char>, b: Seq<char>, i: int, out: Seq<char>)
    requires
        0 <= i <= b.len(),
    ensures
        nested_from(a + b, a.len() + i, out) == nested_from(b, i, out),
    decreases b.len() - i,
{
    if i < b.len() {
        let s = a + b;
        let n = a.len() as int;
        assert(s[n + i] == b[i]);
        assert(text::occurs_at(s, n + i, step_marker()) == text::occurs_at(b, i, step_marker())) by {
            if i + 6 <= b.len() {
                assert(s.subrange(n + i, n + i + 6) == b.subrange(i, i + 6));
            }
        }
        if i + 6 < b.len() && text::occurs_at(b, i, step_marker()) {
            lemma_step_call_end_shift(a, b, i);
            lemma_step_call_end_bounds(b, i);
            let (j, desc) = step_call_end(b, i);
            lemma_nested_shift(a, b, j, out + nested_note(desc));
        } else {
            lemma_nested_shift(a, b, i + 1, out.push(b[i]));
        }
    }
}

proof fn lemma_nested_acc(s: Seq<char>, i: int, out: Seq<char>)
    requires
        0 <= i,
    ensures
        nested_from(s, i, out) == out + nested_from(s, i, Seq::empty()),
    decreases s.len() - i,
{
    if i >= s.len() {
        assert(out + Seq::<char>::empty() == out);
    } else if i + 6 < s.len() && text::occurs_at(s, i, step_marker()) {
        lemma_step_call_end_bounds(s, i);
        let (j, desc) = step_call_end(s, i);
        lemma_nested_acc(s, j, out + nested_note(desc));
        lemma_nested_acc(s, j, Seq::<char>::empty() + nested_note(desc));
        assert(Seq::<char>::empty() + nested_note(desc) == nested_note(desc));
        assert(out + nested_note(desc) + nested_from(s, j, Seq::empty()) == out + (nested_note(desc)
            + nested_from(s, j, Seq::empty())));
    } else {
        lemma_nested_acc(s, i + 1, out.push(s[i]));
        lemma_nested_acc(s, i + 1, Seq::<char>::empty().push(s[i]));
        assert(out.push(s[i]) + nested_from(s, i + 1, Seq::empty()) == out + (Seq::<
            char,
        >::empty().push(s[i]) + nested_from(s, i + 1, Seq::empty())));
    }
}

proof fn lemma_nested_plain_prefix(s: Seq<char>, k: int, i: int, out: Seq<char>)
    requires
        0 <= k <= i <= s.len(),
        forall|q: int| k <= q < i ==> !#[trigger] text::occurs_at(s, q, step_marker()),
    ensures
        nested_from(s, k, out) == nested_from(s, i, out + s.subrange(k, i)),
    decreases i - k,
{
    if k < i {
        assert(!text::occurs_at(s, k, step_marker()));
        lemma_nested_plain_prefix(s, k + 1, i, out.push(s[k]));
        assert(out.push(s[k]) + s.subrange(k + 1, i) == out + s.subrange(k, i));
    } else {
        assert(out + s.subrange(k, i) == out);
    }
}

/// Every nested `step![…]` call is replaced, not only the first: the text
/// before the first call stays, the call becomes its note, and the text
/// after the call is handled as text of its own, so its calls are replaced
/// in turn.
pub proof fn law_nested_steps_each_replaced(s: Seq<char>, i: int)
    requires
        0 <= i,
        i + 6 < s.len(),
        text::occurs_at(s, i, step_marker()),
        forall|k: int| 0 <= k < i ==> !#[trigger] text::occurs_at(s, k, step_marker()),
    ensures
        ({
            let (j, desc) = step_call_end(s, i);
            nested_steps_replaced(s) == s.take(i) + nested_note(desc) + nested_steps_replaced(
                s.skip(j),
            )
        }),
{
    lemma_step_call_end_bounds(s, i);
    let (j, desc) = step_call_end(s, i);
    lemma_nested_plain_prefix(s, 0, i, Seq::empty());
    assert(Seq::<char>::empty() + s.subrange(0, i) == s.take(i));
    lemma_nested_acc(s, j, s.take(i) + nested_note(desc));
    assert(s == s.take(j) + s.skip(j));
    lemma_nested_shift(s.take(j), s.skip(j), 0, Seq::empty());
}

} // verus!
