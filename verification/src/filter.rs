//! The tag filter behind `wait!`, `skip!`, `ignore!` and tagged `step!`
//! calls.
//!
//! A filter holds a list of included tags and a list of excluded tags. A
//! call without tags is always active; a call with tags is active when they
//! pass the filter:
//!
//! ```text
//!   included empty? ──yes──→ pass
//!          │
//!          no: any tag ∈ included? ──yes──→ pass
//!          │
//!          no ──→ blocked
//!
//!   THEN
//!
//!   any tag ∈ excluded? ──yes──→ blocked
//!          │
//!          no ──→ pass
//! ```
//!
//! Without a filter (the program never set one up) every call is active.

use vstd::prelude::*;
use crate::text;

verus! {

/// The lists of included and excluded tags given on the command line.
#[derive(Debug)]
pub struct WaitFilter {
    pub included: Vec<String>,
    pub excluded: Vec<String>,
}

/// The characters of each string.
pub open spec fn string_views(v: Seq<String>) -> Seq<Seq<char>> {
    Seq::new(v.len(), |k: int| v[k]@)
}

/// The characters of each string slice.
pub open spec fn str_views(v: Seq<&str>) -> Seq<Seq<char>> {
    Seq::new(v.len(), |k: int| v[k]@)
}

/// Whether some tag is in `list`.
pub open spec fn any_listed(tags: Seq<Seq<char>>, list: Seq<Seq<char>>) -> bool {
    exists|t: int, l: int| 0 <= t < tags.len() && 0 <= l < list.len() && tags[t] == list[l]
}

/// Whether tags pass the lists `included` and `excluded`: a call without
/// tags always passes (the filter does not apply to it); otherwise, with a
/// non-empty `included` list some tag must be on it, and no tag may be on
/// the `excluded` list.
pub open spec fn passes(included: Seq<Seq<char>>, excluded: Seq<Seq<char>>, tags: Seq<Seq<char>>) -> bool {
    tags.len() == 0 || ((included.len() == 0 || any_listed(tags, included)) && !any_listed(
        tags,
        excluded,
    ))
}

/// The tags of a comma-separated argument: the pieces between commas,
/// each with surrounding whitespace trimmed.
pub open spec fn tag_list(arg: Seq<char>) -> Seq<Seq<char>> {
    Seq::new(split_commas(arg).len(), |k: int| text::trim(split_commas(arg)[k]))
}

/// `arg` split at its commas (`str::split(',')`): one more piece than there
/// are commas.
pub open spec fn split_commas(arg: Seq<char>) -> Seq<Seq<char>>
    decreases arg.len(),
{
    let j = text::find_char_from(arg, ',', 0);
    if j < arg.len() {
        proof {
            text::lemma_find_char_bounds(arg, ',', 0);
        }
        seq![arg.take(j)] + split_commas(arg.skip(j + 1))
    } else {
        seq![arg]
    }
}

/// The included and excluded lists read from `args[i..]`, given the lists
/// read before: the inclusion flag and the exclusion flag each take the next
/// argument as a comma-separated tag list; a later flag replaces an earlier
/// list.
pub open spec fn scan_args(
    args: Seq<Seq<char>>,
    i: int,
    included: Seq<Seq<char>>,
    excluded: Seq<Seq<char>>,
) -> (Seq<Seq<char>>, Seq<Seq<char>>)
    decreases args.len() - i,
{
    if i < 0 || i >= args.len() {
        (included, excluded)
    } else if args[i] == include_flag() && i + 1 < args.len() {
        scan_args(args, i + 2, tag_list(args[i + 1]), excluded)
    } else if args[i] == exclude_flag() && i + 1 < args.len() {
        scan_args(args, i + 2, included, tag_list(args[i + 1]))
    } else {
        scan_args(args, i + 1, included, excluded)
    }
}

/// The inclusion flag.
pub open spec fn include_flag() -> Seq<char> {
    seq!['-', '-', 'i', 'n', 'c', 'l', 'u', 'd', 'e']
}

/// The exclusion flag.
pub open spec fn exclude_flag() -> Seq<char> {
    seq!['-', '-', 'e', 'x', 'c', 'l', 'u', 'd', 'e']
}

/// The lists that command-line arguments `args` set up.
pub open spec fn filter_lists(args: Seq<Seq<char>>) -> (Seq<Seq<char>>, Seq<Seq<char>>) {
    scan_args(args, 0, Seq::empty(), Seq::empty())
}

/// The tags of a comma-separated argument, trimmed.
fn parse_tag_list(arg: &String) -> (r: Vec<String>)
    ensures
        string_views(r@) == tag_list(arg@),
{
    let v = text::chars_of(arg.as_str());
    let mut r: Vec<String> = Vec::new();
    let mut i: usize = 0;
    let ghost pieces = split_commas(v@);
    assert(v@.skip(0) == v@);
    assert(string_views(r@) == Seq::<Seq<char>>::empty());
    assert(Seq::<Seq<char>>::empty() + tag_list(arg@) == tag_list(arg@));
    loop
        invariant
            i <= v.len(),
            pieces == split_commas(v@),
            v@ == arg@,
            string_views(r@) + Seq::new(
                split_commas(v@.skip(i as int)).len(),
                |k: int| text::trim(split_commas(v@.skip(i as int))[k]),
            ) == tag_list(arg@),
        decreases v.len() - i,
    {
        let j = text::find_char(&v, ',', i);
        let piece = text::slice_vec(&v, i, j);
        let start = text::skip_ws(&piece, 0);
        let rest = text::slice_vec(&piece, start, piece.len());
        let n = text::trim_end_len(&rest);
        let trimmed = text::slice_vec(&rest, 0, n);
        let ghost old_r = r@;
        r.push(text::string_of(&trimmed));
        proof {
            let t = v@.skip(i as int);
            text::lemma_find_char_bounds(v@, ',', i as int);
            lemma_find_char_shift(v@, ',', i as int);
            assert(piece@ == t.take(j - i));
            assert(trimmed@ == text::trim(piece@));
            assert(string_views(r@) == string_views(old_r).push(trimmed@));
            if j < v.len() {
                assert(t.skip(j - i + 1) == v@.skip(j + 1));
                assert(split_commas(t) == seq![t.take(j - i)] + split_commas(v@.skip(j + 1)));
            } else {
                assert(t.take(j - i) == t);
            }
        }
        if j >= v.len() {
            proof {
                let t = v@.skip(i as int);
                let tail = Seq::new(
                    split_commas(t).len(),
                    |k: int| text::trim(split_commas(t)[k]),
                );
                assert(tail == seq![trimmed@]);
                assert(string_views(r@) == string_views(old_r) + tail);
            }
            return r;
        }
        proof {
            let t = v@.skip(i as int);
            let tail = Seq::new(split_commas(t).len(), |k: int| text::trim(split_commas(t)[k]));
            let rest_tail = Seq::new(
                split_commas(v@.skip(j + 1)).len(),
                |k: int| text::trim(split_commas(v@.skip(j + 1))[k]),
            );
            assert(tail == seq![trimmed@] + rest_tail);
            assert(string_views(r@) + rest_tail == string_views(old_r) + tail);
        }
        i = j + 1;
    }
}

proof fn lemma_find_char_shift(s: Seq<char>, c: char, i: int)
    requires
        0 <= i <= s.len(),
    ensures
        text::find_char_from(s.skip(i), c, 0) == text::find_char_from(s, c, i) - i,
{
    text::lemma_find_char_bounds(s, c, i);
    text::lemma_find_char_bounds(s.skip(i), c, 0);
    let a = text::find_char_from(s.skip(i), c, 0);
    let b = text::find_char_from(s, c, i);
    if a < b - i {
        assert(s.skip(i)[a] == s[i + a]);
    } else if a > b - i {
        assert(s.skip(i)[b - i] == s[b]);
    }
}

impl WaitFilter {
    /// A filter with empty lists: every call passes.
    pub fn new() -> (f: WaitFilter)
        ensures
            f.included@.len() == 0,
            f.excluded@.len() == 0,
    {
        WaitFilter { included: Vec::new(), excluded: Vec::new() }
    }

    /// Read the inclusion and exclusion flags from the command-line
    /// arguments (the program's own name first, as `std::env::args` gives
    /// them).
    ///
    /// The inclusion flag followed by `a,b` makes `a` and `b` the included
    /// tags, the exclusion flag followed by `c` makes `c` the excluded tag; a
    /// flag at the very end, without a value, is ignored; a later flag
    /// replaces an earlier list.
    pub fn from_args(args: &Vec<String>) -> (f: WaitFilter)
        ensures
            (string_views(f.included@), string_views(f.excluded@)) == filter_lists(
                string_views(args@),
            ),
    {
        let ghost a = string_views(args@);
        let inc_flag = vec!['-', '-', 'i', 'n', 'c', 'l', 'u', 'd', 'e'];
        let exc_flag = vec!['-', '-', 'e', 'x', 'c', 'l', 'u', 'd', 'e'];
        let mut f = WaitFilter::new();
        assert(string_views(f.included@) == Seq::<Seq<char>>::empty());
        assert(string_views(f.excluded@) == Seq::<Seq<char>>::empty());
        let mut i: usize = 0;
        while i < args.len()
            invariant
                i <= args.len() + 1,
                a == string_views(args@),
                inc_flag@ == include_flag(),
                exc_flag@ == exclude_flag(),
                scan_args(a, i as int, string_views(f.included@), string_views(f.excluded@))
                    == filter_lists(a),
            decreases args.len() + 1 - i,
        {
            let arg = text::chars_of(args[i].as_str());
            assert(a[i as int] == arg@);
            if text::chars_eq(&arg, &inc_flag) && i + 1 < args.len() {
                f.included = parse_tag_list(&args[i + 1]);
                i = i + 2;
            } else if text::chars_eq(&arg, &exc_flag) && i + 1 < args.len() {
                f.excluded = parse_tag_list(&args[i + 1]);
                i = i + 2;
            } else {
                i = i + 1;
            }
        }
        f
    }

    /// Whether `tags` pass this filter.
    pub fn matches(&self, tags: &[&str]) -> (r: bool)
        ensures
            r == passes(string_views(self.included@), string_views(self.excluded@), str_views(tags@)),
    {
        if tags.len() == 0 {
            return true;
        }
        let passes_include = self.included.len() == 0 || any_in(tags, &self.included);
        let passes_exclude = !any_in(tags, &self.excluded);
        passes_include && passes_exclude
    }
}

impl Default for WaitFilter {
    /// A filter with empty lists, as [`WaitFilter::new`] makes.
    fn default() -> (f: WaitFilter)
        ensures
            f.included@.len() == 0,
            f.excluded@.len() == 0,
    {
        WaitFilter::new()
    }
}

/// Whether some tag is in `list`.
fn any_in(tags: &[&str], list: &Vec<String>) -> (r: bool)
    ensures
        r == any_listed(str_views(tags@), string_views(list@)),
{
    let mut t: usize = 0;
    while t < tags.len()
        invariant
            t <= tags@.len(),
            forall|a: int, b: int|
                #![trigger tags@[a], list@[b]]
                0 <= a < t && 0 <= b < list@.len() ==> tags@[a]@ != list@[b]@,
        decreases tags@.len() - t,
    {
        let mut l: usize = 0;
        while l < list.len()
            invariant
                t < tags@.len(),
                l <= list@.len(),
                forall|a: int, b: int|
                    #![trigger tags@[a], list@[b]]
                    0 <= a < t && 0 <= b < list@.len() ==> tags@[a]@ != list@[b]@,
                forall|b: int| 0 <= b < l ==> tags@[t as int]@ != #[trigger] list@[b]@,
            decreases list@.len() - l,
        {
            if text::str_eq(tags[t], list[l].as_str()) {
                assert(str_views(tags@)[t as int] == string_views(list@)[l as int]);
                return true;
            }
            l = l + 1;
        }
        t = t + 1;
    }
    proof {
        if any_listed(str_views(tags@), string_views(list@)) {
            let (a, b) = choose|a: int, b: int|
                0 <= a < tags@.len() && 0 <= b < list@.len() && str_views(tags@)[a] == string_views(
                    list@,
                )[b];
            assert(tags@[a]@ != list@[b]@);
        }
    }
    false
}

/// Whether a call with `tags` is active under `filter` (always, without one).
pub open spec fn filter_matches_spec(filter: Option<&WaitFilter>, tags: Seq<&str>) -> bool {
    match filter {
        None => true,
        Some(f) => passes(string_views(f.included@), string_views(f.excluded@), str_views(tags)),
    }
}

/// Whether a call with `tags` is active: it is when no filter was set up,
/// and otherwise when the tags pass the filter.
pub fn filter_matches(filter: Option<&WaitFilter>, tags: &[&str]) -> (r: bool)
    ensures
        r == filter_matches_spec(filter, tags@),
{
    match filter {
        None => true,
        Some(f) => f.matches(tags),
    }
}


// ──────────────────────────────────── laws ────────────────────────────────────

/// With no included and no excluded tags every call passes.
pub proof fn law_empty_filter_passes_all(tags: Seq<Seq<char>>)
    ensures
        passes(Seq::empty(), Seq::empty(), tags),
{
}

/// An excluded tag blocks a call, whatever else is listed.
pub proof fn law_excluded_tag_blocks(
    included: Seq<Seq<char>>,
    excluded: Seq<Seq<char>>,
    tags: Seq<Seq<char>>,
    t: int,
    e: int,
)
    requires
        0 <= t < tags.len(),
        0 <= e < excluded.len(),
        tags[t] == excluded[e],
    ensures
        !passes(included, excluded, tags),
{
}

/// A tag on the included list lets a call through unless one of its tags
/// is excluded.
pub proof fn law_included_tag_passes(
    included: Seq<Seq<char>>,
    excluded: Seq<Seq<char>>,
    tags: Seq<Seq<char>>,
    t: int,
    i: int,
)
    requires
        0 <= t < tags.len(),
        0 <= i < included.len(),
        tags[t] == included[i],
        !any_listed(tags, excluded),
    ensures
        passes(included, excluded, tags),
{
}

/// A call without tags always passes: the filter does not apply to it.
pub proof fn law_untagged_calls(included: Seq<Seq<char>>, excluded: Seq<Seq<char>>)
    ensures
        passes(included, excluded, Seq::empty()),
{
}

/// A command line: the program's name, then a flag and its value for each
/// pair in order (`true` for the inclusion flag, `false` for the exclusion
/// flag).
pub open spec fn command_line(prog: Seq<char>, pairs: Seq<(bool, Seq<char>)>) -> Seq<Seq<char>>
    decreases pairs.len(),
{
    if pairs.len() == 0 {
        seq![prog]
    } else {
        command_line(prog, pairs.drop_last()) + seq![
            if pairs.last().0 {
                include_flag()
            } else {
                exclude_flag()
            },
            pairs.last().1,
        ]
    }
}

/// The tags that the last pair with the given flag gives, or none when no
/// pair has that flag.
pub open spec fn last_setting(pairs: Seq<(bool, Seq<char>)>, inclusion: bool) -> Seq<Seq<char>>
    decreases pairs.len(),
{
    if pairs.len() == 0 {
        Seq::empty()
    } else if pairs.last().0 == inclusion {
        tag_list(pairs.last().1)
    } else {
        last_setting(pairs.drop_last(), inclusion)
    }
}

proof fn lemma_scan_command_line(prog: Seq<char>, pairs: Seq<(bool, Seq<char>)>, t: Seq<Seq<char>>)
    requires
        prog != include_flag(),
        prog != exclude_flag(),
    ensures
        scan_args(command_line(prog, pairs) + t, 0, Seq::empty(), Seq::empty()) == scan_args(
            command_line(prog, pairs) + t,
            command_line(prog, pairs).len() as int,
            last_setting(pairs, true),
            last_setting(pairs, false),
        ),
    decreases pairs.len(),
{
    assert(include_flag()[2] != exclude_flag()[2]);
    if pairs.len() == 0 {
        let a = seq![prog] + t;
        assert(a[0] == prog);
    } else {
        let init = pairs.drop_last();
        let (f, v) = pairs.last();
        let flag = if f {
            include_flag()
        } else {
            exclude_flag()
        };
        let cl = command_line(prog, init);
        let t2 = seq![flag, v] + t;
        lemma_scan_command_line(prog, init, t2);
        assert(command_line(prog, pairs) == cl + seq![flag, v]);
        assert(cl + t2 == command_line(prog, pairs) + t);
        let a = cl + t2;
        let n = cl.len() as int;
        assert(a[n] == flag);
        assert(a[n + 1] == v);
    }
}

/// Each flag sets its own list and nothing else: on a command line made of
/// the program's name and flag-value pairs, the included tags are those of
/// the last inclusion flag and the excluded tags those of the last
/// exclusion flag (none where the flag is missing), whatever other flags
/// come before or after.
pub proof fn law_each_flag_sets_its_own_list(prog: Seq<char>, pairs: Seq<(bool, Seq<char>)>)
    requires
        prog != include_flag(),
        prog != exclude_flag(),
    ensures
        filter_lists(command_line(prog, pairs)) == (
            last_setting(pairs, true),
            last_setting(pairs, false),
        ),
{
    lemma_scan_command_line(prog, pairs, Seq::empty());
    assert(command_line(prog, pairs) + Seq::<Seq<char>>::empty() == command_line(prog, pairs));
}

} // verus!
