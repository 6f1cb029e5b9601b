//! Character-level building blocks shared by the source pipeline and the
//! terminal layout: whitespace, line splitting, trimming, and conversions
//! between `&str`/`String` and `Vec<char>`.

use vstd::prelude::*;
use vstd::std_specs::iter::IteratorSpec;

verus! {

broadcast use vstd::string::group_string_axioms;

/// The Unicode `White_Space` property, which is what `char::is_whitespace`
/// tests.
pub open spec fn is_ws(c: char) -> bool {
    let n = c as int;
    ||| 0x09 <= n <= 0x0d
    ||| n == 0x20
    ||| n == 0x85
    ||| n == 0xa0
    ||| n == 0x1680
    ||| 0x2000 <= n <= 0x200a
    ||| n == 0x2028
    ||| n == 0x2029
    ||| n == 0x202f
    ||| n == 0x205f
    ||| n == 0x3000
}

/// Executable whitespace test with the `White_Space` property.
pub fn is_whitespace(c: char) -> (b: bool)
    ensures
        b == is_ws(c),
{
    let n = c as u32;
    (0x09 <= n && n <= 0x0d) || n == 0x20 || n == 0x85 || n == 0xa0 || n == 0x1680 || (0x2000
        <= n && n <= 0x200a) || n == 0x2028 || n == 0x2029 || n == 0x202f || n == 0x205f || n
        == 0x3000
}

/// The characters of a string slice, in order.
pub fn chars_of(s: &str) -> (v: Vec<char>)
    ensures
        v@ == s@,
{
    let mut it = s.chars();
    let mut v: Vec<char> = Vec::new();
    loop
        invariant
            v@ + it.remaining() == s@,
            it.decrease() is Some,
        ensures
            v@ == s@,
        decreases it.decrease()->0,
    {
        match it.next() {
            Some(c) => {
                v.push(c);
            },
            None => {
                break;
            },
        }
    }
    v
}

/// Appends one character to a `String` (`String::push`).
#[verifier::external_body]
fn push_char(s: &mut String, c: char)
    ensures
        final(s)@ == old(s)@.push(c),
{
    s.push(c);
}

/// A `String` holding exactly the given characters.
pub fn string_of(v: &Vec<char>) -> (s: String)
    ensures
        s@ == v@,
{
    let mut s = String::new();
    let mut i: usize = 0;
    while i < v.len()
        invariant
            i <= v.len(),
            s@ == v@.take(i as int),
        decreases v.len() - i,
    {
        push_char(&mut s, v[i]);
        assert(v@.take(i + 1) == v@.take(i as int).push(v@[i as int]));
        i = i + 1;
    }
    assert(v@.take(v.len() as int) == v@);
    s
}


/// The number of bytes that `c` takes in UTF-8.
pub open spec fn char_len(c: char) -> nat {
    let n = c as int;
    if n < 0x80 {
        1
    } else if n < 0x800 {
        2
    } else if n < 0x10000 {
        3
    } else {
        4
    }
}

/// Executable `char::len_utf8`.
pub fn char_len_utf8(c: char) -> (n: u128)
    ensures
        n == char_len(c),
{
    let n = c as u32;
    if n < 0x80 {
        1
    } else if n < 0x800 {
        2
    } else if n < 0x10000 {
        3
    } else {
        4
    }
}

/// The UTF-8 byte length of a character sequence.
pub open spec fn utf8_len(s: Seq<char>) -> nat
    decreases s.len(),
{
    if s.len() == 0 {
        0
    } else {
        utf8_len(s.drop_last()) + char_len(s.last())
    }
}

/// The first index at or after `i` that does not hold whitespace (or the
/// length, if there is none).
pub open spec fn skip_ws_from(s: Seq<char>, i: int) -> int
    decreases s.len() - i,
{
    if 0 <= i < s.len() && is_ws(s[i]) {
        skip_ws_from(s, i + 1)
    } else {
        i
    }
}

pub proof fn lemma_skip_ws_bounds(s: Seq<char>, i: int)
    requires
        0 <= i <= s.len(),
    ensures
        i <= skip_ws_from(s, i) <= s.len(),
        forall|k: int| i <= k < skip_ws_from(s, i) ==> is_ws(#[trigger] s[k]),
        skip_ws_from(s, i) < s.len() ==> !is_ws(s[skip_ws_from(s, i)]),
    decreases s.len() - i,
{
    if i < s.len() && is_ws(s[i]) {
        lemma_skip_ws_bounds(s, i + 1);
    }
}

/// Executable [`skip_ws_from`].
pub fn skip_ws(v: &Vec<char>, i: usize) -> (j: usize)
    requires
        i <= v.len(),
    ensures
        j == skip_ws_from(v@, i as int),
        i <= j <= v.len(),
{
    let mut j = i;
    while j < v.len() && is_whitespace(v[j])
        invariant
            i <= j <= v.len(),
            skip_ws_from(v@, j as int) == skip_ws_from(v@, i as int),
        decreases v.len() - j,
    {
        j = j + 1;
    }
    proof {
        lemma_skip_ws_bounds(v@, i as int);
    }
    j
}

/// The first index at or after `i` that holds `c` (or the length).
pub open spec fn find_char_from(s: Seq<char>, c: char, i: int) -> int
    decreases s.len() - i,
{
    if 0 <= i < s.len() && s[i] != c {
        find_char_from(s, c, i + 1)
    } else {
        i
    }
}

pub proof fn lemma_find_char_bounds(s: Seq<char>, c: char, i: int)
    requires
        0 <= i <= s.len(),
    ensures
        i <= find_char_from(s, c, i) <= s.len(),
        forall|k: int| i <= k < find_char_from(s, c, i) ==> #[trigger] s[k] != c,
        find_char_from(s, c, i) < s.len() ==> s[find_char_from(s, c, i)] == c,
    decreases s.len() - i,
{
    if i < s.len() && s[i] != c {
        lemma_find_char_bounds(s, c, i + 1);
    }
}

/// Executable [`find_char_from`].
pub fn find_char(v: &Vec<char>, c: char, i: usize) -> (j: usize)
    requires
        i <= v.len(),
    ensures
        j == find_char_from(v@, c, i as int),
        i <= j <= v.len(),
{
    let mut j = i;
    while j < v.len() && v[j] != c
        invariant
            i <= j <= v.len(),
            find_char_from(v@, c, j as int) == find_char_from(v@, c, i as int),
        decreases v.len() - j,
    {
        j = j + 1;
    }
    proof {
        lemma_find_char_bounds(v@, c, i as int);
    }
    j
}

/// A line without the `\r` of a `\r\n` ending.
pub open spec fn strip_cr(l: Seq<char>) -> Seq<char> {
    if l.len() > 0 && l.last() == '\r' {
        l.drop_last()
    } else {
        l
    }
}

/// `str::lines` from index `i` on: split at `\n`, drop the `\r` of a
/// `\r\n`, and yield no empty line after a final line ending.
pub open spec fn lines_from(s: Seq<char>, i: int) -> Seq<Seq<char>>
    decreases s.len() - i,
{
    if i < 0 || i >= s.len() {
        Seq::empty()
    } else {
        let j = find_char_from(s, '\n', i);
        if j < s.len() {
            proof {
                lemma_find_char_bounds(s, '\n', i);
            }
            seq![strip_cr(s.subrange(i, j))] + lines_from(s, j + 1)
        } else {
            seq![s.subrange(i, s.len() as int)]
        }
    }
}

/// The lines of `s`, as `str::lines` yields them.
pub open spec fn lines(s: Seq<char>) -> Seq<Seq<char>> {
    lines_from(s, 0)
}

/// The character sequences held by a vector of character vectors.
pub open spec fn views(v: Seq<Vec<char>>) -> Seq<Seq<char>> {
    Seq::new(v.len(), |k: int| v[k]@)
}

/// The characters of `v` from `i` up to `j`.
pub fn slice_vec(v: &Vec<char>, i: usize, j: usize) -> (r: Vec<char>)
    requires
        i <= j <= v.len(),
    ensures
        r@ == v@.subrange(i as int, j as int),
{
    let mut r: Vec<char> = Vec::new();
    let mut k = i;
    while k < j
        invariant
            i <= k <= j <= v.len(),
            r@ == v@.subrange(i as int, k as int),
        decreases j - k,
    {
        r.push(v[k]);
        k = k + 1;
    }
    r
}

/// Executable [`lines`].
pub fn split_lines(v: &Vec<char>) -> (ls: Vec<Vec<char>>)
    ensures
        views(ls@) == lines(v@),
{
    let mut ls: Vec<Vec<char>> = Vec::new();
    let mut i: usize = 0;
    while i < v.len()
        invariant
            i <= v.len(),
            views(ls@) + lines_from(v@, i as int) == lines(v@),
        decreases v.len() - i,
    {
        let j = find_char(v, '\n', i);
        let ghost old_ls = ls@;
        if j < v.len() {
            let mut l = slice_vec(v, i, j);
            if l.len() > 0 && l[l.len() - 1] == '\r' {
                l.pop();
            }
            ls.push(l);
            assert(views(ls@) == views(old_ls).push(strip_cr(v@.subrange(i as int, j as int))));
            assert(views(ls@) + lines_from(v@, j + 1) == views(old_ls) + lines_from(v@, i as int));
            i = j + 1;
        } else {
            let l = slice_vec(v, i, v.len());
            ls.push(l);
            assert(views(ls@) == views(old_ls).push(v@.subrange(i as int, v.len() as int)));
            assert(lines_from(v@, v.len() as int) == Seq::<Seq<char>>::empty());
            assert(views(ls@) + lines_from(v@, v.len() as int) == views(old_ls) + lines_from(v@, i as int));
            i = v.len();
        }
    }
    assert(views(ls@) + lines_from(v@, i as int) == views(ls@));
    ls
}

/// `s` without its leading whitespace.
pub open spec fn trim_start(s: Seq<char>) -> Seq<char> {
    s.skip(skip_ws_from(s, 0))
}

/// `s` without its trailing whitespace.
pub open spec fn trim_end(s: Seq<char>) -> Seq<char>
    decreases s.len(),
{
    if s.len() > 0 && is_ws(s.last()) {
        trim_end(s.drop_last())
    } else {
        s
    }
}

/// `s` without leading and trailing whitespace.
pub open spec fn trim(s: Seq<char>) -> Seq<char> {
    trim_end(trim_start(s))
}

pub proof fn lemma_trim_end_prefix(s: Seq<char>)
    ensures
        trim_end(s).len() <= s.len(),
        trim_end(s) == s.take(trim_end(s).len() as int),
        trim_end(s).len() > 0 ==> !is_ws(trim_end(s).last()),
    decreases s.len(),
{
    if s.len() > 0 && is_ws(s.last()) {
        lemma_trim_end_prefix(s.drop_last());
        assert(s.drop_last().take(trim_end(s).len() as int) == s.take(trim_end(s).len() as int));
    } else {
        assert(s.take(s.len() as int) == s);
    }
}

/// The length of `v` without its trailing whitespace.
pub fn trim_end_len(v: &Vec<char>) -> (n: usize)
    ensures
        n == trim_end(v@).len(),
        n <= v.len(),
        trim_end(v@) == v@.take(n as int),
{
    let mut n = v.len();
    assert(v@.take(n as int) == v@);
    while n > 0 && is_whitespace(v[n - 1])
        invariant
            n <= v.len(),
            trim_end(v@.take(n as int)) == trim_end(v@),
        decreases n,
    {
        assert(v@.take(n as int).drop_last() == v@.take(n - 1));
        n = n - 1;
    }
    assert(trim_end(v@.take(n as int)) == v@.take(n as int));
    proof {
        lemma_trim_end_prefix(v@);
    }
    n
}


/// Whether `m` occurs in `s` starting at index `i`.
pub open spec fn occurs_at(s: Seq<char>, i: int, m: Seq<char>) -> bool {
    0 <= i && i + m.len() <= s.len() && s.subrange(i, i + m.len()) == m
}

/// Executable [`occurs_at`].
pub fn marker_at(v: &Vec<char>, i: usize, m: &Vec<char>) -> (b: bool)
    requires
        i <= v.len(),
    ensures
        b == occurs_at(v@, i as int, m@),
{
    if m.len() > v.len() - i {
        return false;
    }
    let mut k: usize = 0;
    while k < m.len()
        invariant
            k <= m.len(),
            i + m.len() <= v.len(),
            forall|t: int| 0 <= t < k ==> v@[i + t] == m@[t],
        decreases m.len() - k,
    {
        if v[i + k] != m[k] {
            assert(v@.subrange(i as int, i + m.len())[k as int] != m@[k as int]);
            return false;
        }
        k = k + 1;
    }
    assert(v@.subrange(i as int, i + m.len()) =~= m@);
    true
}

/// The pieces of `parts` joined with `sep` between them (`[T]::join`).
pub open spec fn join(parts: Seq<Seq<char>>, sep: Seq<char>) -> Seq<char>
    decreases parts.len(),
{
    if parts.len() == 0 {
        Seq::empty()
    } else if parts.len() == 1 {
        parts[0]
    } else {
        join(parts.drop_last(), sep) + sep + parts.last()
    }
}

/// Appends the characters of `w` to `out`.
pub fn append_chars(out: &mut Vec<char>, w: &Vec<char>)
    ensures
        final(out)@ == old(out)@ + w@,
{
    let mut k: usize = 0;
    while k < w.len()
        invariant
            k <= w.len(),
            out@ == old(out)@ + w@.take(k as int),
        decreases w.len() - k,
    {
        out.push(w[k]);
        assert(w@.take(k + 1) == w@.take(k as int).push(w@[k as int]));
        k = k + 1;
    }
    assert(w@.take(w.len() as int) == w@);
}

/// Appends `parts` joined with `sep` to `out`.
pub fn append_joined(out: &mut Vec<char>, parts: &Vec<Vec<char>>, sep: &Vec<char>)
    ensures
        final(out)@ == old(out)@ + join(views(parts@), sep@),
{
    let mut k: usize = 0;
    while k < parts.len()
        invariant
            k <= parts.len(),
            out@ == old(out)@ + join(views(parts@).take(k as int), sep@),
        decreases parts.len() - k,
    {
        let ghost before = out@;
        if k > 0 {
            append_chars(out, sep);
        }
        append_chars(out, &parts[k]);
        proof {
            let t = views(parts@).take(k + 1);
            assert(t.drop_last() == views(parts@).take(k as int));
            assert(t.last() == parts@[k as int]@);
            if k == 0 {
                assert(join(t, sep@) == t[0]);
                assert(join(views(parts@).take(0), sep@) == Seq::<char>::empty());
            }
        }
        k = k + 1;
    }
    assert(views(parts@).take(parts.len() as int) == views(parts@));
}


/// The first index at or after `i` that does not hold `c` (or the length).
pub open spec fn skip_run_from(s: Seq<char>, c: char, i: int) -> int
    decreases s.len() - i,
{
    if 0 <= i < s.len() && s[i] == c {
        skip_run_from(s, c, i + 1)
    } else {
        i
    }
}

pub proof fn lemma_skip_run_bounds(s: Seq<char>, c: char, i: int)
    requires
        0 <= i <= s.len(),
    ensures
        i <= skip_run_from(s, c, i) <= s.len(),
        skip_run_from(s, c, i) < s.len() ==> s[skip_run_from(s, c, i)] != c,
    decreases s.len() - i,
{
    if i < s.len() && s[i] == c {
        lemma_skip_run_bounds(s, c, i + 1);
    }
}

/// Executable [`skip_run_from`].
pub fn skip_run(v: &Vec<char>, c: char, i: usize) -> (j: usize)
    requires
        i <= v.len(),
    ensures
        j == skip_run_from(v@, c, i as int),
        i <= j <= v.len(),
{
    let mut j = i;
    while j < v.len() && v[j] == c
        invariant
            i <= j <= v.len(),
            skip_run_from(v@, c, j as int) == skip_run_from(v@, c, i as int),
        decreases v.len() - j,
    {
        j = j + 1;
    }
    proof {
        lemma_skip_run_bounds(v@, c, i as int);
    }
    j
}

/// The first index at or after `i` where `m` occurs (or the length).
pub open spec fn find_from(s: Seq<char>, m: Seq<char>, i: int) -> int
    decreases s.len() - i,
{
    if 0 <= i < s.len() && !occurs_at(s, i, m) {
        find_from(s, m, i + 1)
    } else {
        i
    }
}

pub proof fn lemma_find_from_bounds(s: Seq<char>, m: Seq<char>, i: int)
    requires
        0 <= i <= s.len(),
    ensures
        i <= find_from(s, m, i) <= s.len(),
        find_from(s, m, i) < s.len() ==> occurs_at(s, find_from(s, m, i), m),
        forall|k: int| i <= k < find_from(s, m, i) ==> !#[trigger] occurs_at(s, k, m),
    decreases s.len() - i,
{
    if i < s.len() && !occurs_at(s, i, m) {
        lemma_find_from_bounds(s, m, i + 1);
    }
}

/// Executable [`find_from`].
pub fn find_marker(v: &Vec<char>, m: &Vec<char>, i: usize) -> (j: usize)
    requires
        i <= v.len(),
    ensures
        j == find_from(v@, m@, i as int),
        i <= j <= v.len(),
{
    let mut j = i;
    while j < v.len() && !marker_at(v, j, m)
        invariant
            i <= j <= v.len(),
            find_from(v@, m@, j as int) == find_from(v@, m@, i as int),
        decreases v.len() - j,
    {
        j = j + 1;
    }
    proof {
        lemma_find_from_bounds(v@, m@, i as int);
    }
    j
}


/// Whether two string slices hold the same characters.
pub fn str_eq(a: &str, b: &str) -> (r: bool)
    ensures
        r == (a@ == b@),
{
    let x = chars_of(a);
    let y = chars_of(b);
    chars_eq(&x, &y)
}

/// Whether two character vectors are equal.
pub fn chars_eq(x: &Vec<char>, y: &Vec<char>) -> (r: bool)
    ensures
        r == (x@ == y@),
{
    if x.len() != y.len() {
        return false;
    }
    let mut k: usize = 0;
    while k < x.len()
        invariant
            k <= x.len() == y.len(),
            forall|t: int| 0 <= t < k ==> x@[t] == y@[t],
        decreases x.len() - k,
    {
        if x[k] != y[k] {
            return false;
        }
        k = k + 1;
    }
    assert(x@ =~= y@);
    true
}

pub open spec fn is_digit(c: char) -> bool {
    '0' <= c <= '9'
}

/// The value of a sequence of decimal digits.
pub open spec fn digits_value(d: Seq<char>) -> nat
    decreases d.len(),
{
    if d.len() == 0 {
        0
    } else {
        digits_value(d.drop_last()) * 10 + (d.last() as nat - '0' as nat) as nat
    }
}

/// The digits of an unsigned number: the text after an optional `+`.
pub open spec fn unsigned_digits(s: Seq<char>) -> Seq<char> {
    if s.len() > 0 && s[0] == '+' {
        s.drop_first()
    } else {
        s
    }
}

/// The unsigned integer that `s` spells out the way `str::parse` reads
/// one: an optional `+`, then one or more decimal digits.
pub open spec fn unsigned_value(s: Seq<char>) -> Option<nat> {
    let d = unsigned_digits(s);
    if d.len() > 0 && forall|k: int| 0 <= k < d.len() ==> is_digit(#[trigger] d[k]) {
        Some(digits_value(d))
    } else {
        None
    }
}

/// `s.parse::<u64>().ok()`.
pub open spec fn parse_u64_spec(s: Seq<char>) -> Option<u64> {
    match unsigned_value(s) {
        Some(v) => if v <= u64::MAX {
            Some(v as u64)
        } else {
            None
        },
        None => None,
    }
}

/// `s.parse::<usize>().ok()`.
pub open spec fn parse_usize_spec(s: Seq<char>) -> Option<usize> {
    match unsigned_value(s) {
        Some(v) => if v <= usize::MAX {
            Some(v as usize)
        } else {
            None
        },
        None => None,
    }
}

/// `v` capped at 2^64.
pub open spec fn cap64(v: nat) -> nat {
    if v < 0x1_0000_0000_0000_0000 {
        v
    } else {
        0x1_0000_0000_0000_0000
    }
}

/// The value of `s` as [`unsigned_value`] reads it, capped at 2^64.
fn unsigned_value_capped(s: &str) -> (r: Option<u128>)
    ensures
        r is None <==> unsigned_value(s@) is None,
        r is Some ==> r->0 as nat == cap64(unsigned_value(s@)->0),
{
    let v = chars_of(s);
    let start: usize = if v.len() > 0 && v[0] == '+' {
        1
    } else {
        0
    };
    let ghost d = unsigned_digits(v@);
    assert(d == v@.skip(start as int));
    if start >= v.len() {
        assert(unsigned_value(s@) is None);
        return None;
    }
    let cap: u128 = 0x1_0000_0000_0000_0000;
    let mut acc: u128 = 0;
    let mut k: usize = start;
    assert(v@.subrange(start as int, start as int) == Seq::<char>::empty());
    while k < v.len()
        invariant
            start <= k <= v.len(),
            v@ == s@,
            d == unsigned_digits(v@),
            d == v@.skip(start as int),
            forall|t: int| start <= t < k ==> is_digit(#[trigger] v@[t]),
            cap == 0x1_0000_0000_0000_0000u128,
            acc <= cap,
            acc == if digits_value(v@.subrange(start as int, k as int)) < cap {
                digits_value(v@.subrange(start as int, k as int))
            } else {
                cap as nat
            },
        decreases v.len() - k,
    {
        let c = v[k];
        if !('0' <= c && c <= '9') {
            assert(d[k - start] == c);
            assert(!is_digit(d[k - start]));
            assert(unsigned_value(s@) is None);
            return None;
        }
        let digit = (c as u32 - '0' as u32) as u128;
        proof {
            assert(v@.subrange(start as int, k + 1).drop_last() == v@.subrange(start as int, k as int));
        }
        let next = acc * 10 + digit;
        acc = if next < cap {
            next
        } else {
            cap
        };
        k = k + 1;
    }
    proof {
        assert(v@.subrange(start as int, v.len() as int) == d);
        assert forall|t: int| 0 <= t < d.len() implies is_digit(#[trigger] d[t]) by {
            assert(d[t] == v@[start + t]);
        }
    }
    Some(acc)
}

/// `s.parse::<u64>().ok()`: an optional `+` and decimal digits whose value
/// fits in a `u64`.
pub fn parse_u64(s: &str) -> (r: Option<u64>)
    ensures
        r == parse_u64_spec(s@),
{
    match unsigned_value_capped(s) {
        Some(v) => if v <= u64::MAX as u128 {
            Some(v as u64)
        } else {
            None
        },
        None => None,
    }
}

/// `s.parse::<usize>().ok()`: an optional `+` and decimal digits whose
/// value fits in a `usize`.
pub fn parse_usize(s: &str) -> (r: Option<usize>)
    ensures
        r == parse_usize_spec(s@),
{
    match unsigned_value_capped(s) {
        Some(v) => if v <= usize::MAX as u128 {
            Some(v as usize)
        } else {
            None
        },
        None => None,
    }
}

} // verus!
