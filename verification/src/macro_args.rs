//! The argument grammar of the four macros, read from the top-level tokens
//! of a macro call, and the decisions their expansions make.
//!
//! | Macro     | Arguments                                   |
//! |-----------|---------------------------------------------|
//! | `step!`   | `"description"[, "tag"…][,] { … }`          |
//! | `wait!`   | nothing, or `"a"[, "b"…][,]`                |
//! | `skip!`   | `("tag", …) { … }`                          |
//! | `ignore!` | `("tag", …) { … }`                          |
//!
//! A call that does not fit its grammar is an error.

use vstd::prelude::*;
use crate::filter;

verus! {

/// A top-level token of a macro call, as far as the grammar looks at it.
pub enum ArgToken {
    /// A string literal, with its value.
    Str(String),
    /// A `,`.
    Comma,
    /// A `{ … }` group.
    Block,
    /// A `( … )` group.
    Paren,
    /// Anything else.
    Other,
}

/// The value of a string-literal token, if the token is one.
pub open spec fn str_value(t: ArgToken) -> Option<Seq<char>> {
    match t {
        ArgToken::Str(s) => Some(s@),
        _ => None,
    }
}

/// The string literals `t[i..]` when they form a comma-separated list with
/// an optional trailing comma (`Punctuated::parse_terminated`), appended to
/// `acc`; `None` otherwise.
pub open spec fn str_list_from(t: Seq<ArgToken>, i: int, acc: Seq<Seq<char>>) -> Option<
    Seq<Seq<char>>,
>
    decreases t.len() - i,
{
    if i < 0 || i >= t.len() {
        Some(acc)
    } else {
        match str_value(t[i]) {
            Some(s) => if i + 1 >= t.len() {
                Some(acc.push(s))
            } else if t[i + 1] is Comma {
                str_list_from(t, i + 2, acc.push(s))
            } else {
                None
            },
            None => None,
        }
    }
}

/// The comma-separated string literals that make up all of `t`.
pub open spec fn str_list(t: Seq<ArgToken>) -> Option<Seq<Seq<char>>> {
    str_list_from(t, 0, Seq::empty())
}

/// Reads a comma-separated list of string literals that makes up all of
/// `tokens`; `None` when the tokens are something else.
pub fn parse_str_list(tokens: &Vec<ArgToken>) -> (r: Option<Vec<String>>)
    ensures
        match str_list(tokens@) {
            Some(l) => r is Some && filter::string_views(r->0@) == l,
            None => r is None,
        },
{
    let mut out: Vec<String> = Vec::new();
    let mut i: usize = 0;
    assert(filter::string_views(out@) == Seq::<Seq<char>>::empty());
    while i < tokens.len()
        invariant
            i <= tokens@.len(),
            str_list_from(tokens@, i as int, filter::string_views(out@)) == str_list(tokens@),
        decreases tokens@.len() - i,
    {
        match &tokens[i] {
            ArgToken::Str(s) => {
                let ghost before = out@;
                out.push(s.clone());
                assert(filter::string_views(out@) =~= filter::string_views(before).push(s@));
                if i + 1 >= tokens.len() {
                    return Some(out);
                }
                match &tokens[i + 1] {
                    ArgToken::Comma => {
                        i = i + 2;
                    },
                    _ => {
                        return None;
                    },
                }
            },
            _ => {
                return None;
            },
        }
    }
    Some(out)
}

/// The tags of a `step!` call from `t[i]` on, appended to `tags`: string
/// literals, each followed by a comma except the last, up to the block.
/// Returns the index where the tag list ends.
pub open spec fn step_tags_from(t: Seq<ArgToken>, i: int, tags: Seq<Seq<char>>) -> Option<
    (int, Seq<Seq<char>>),
>
    decreases t.len() - i,
{
    if i < 0 || i >= t.len() {
        None
    } else if t[i] is Block {
        Some((i, tags))
    } else {
        match str_value(t[i]) {
            Some(s) => if i + 1 < t.len() && t[i + 1] is Comma {
                step_tags_from(t, i + 2, tags.push(s))
            } else {
                Some((i + 1, tags.push(s)))
            },
            None => None,
        }
    }
}

/// The description and tags of a `step!` call: a description string, then
/// (after a comma) any tags, then the block, and nothing after it.
pub open spec fn step_args_spec(t: Seq<ArgToken>) -> Option<(Seq<char>, Seq<Seq<char>>)> {
    if t.len() == 0 {
        None
    } else {
        match str_value(t[0]) {
            Some(comment) => {
                let rest = if t.len() > 1 && t[1] is Comma {
                    step_tags_from(t, 2, Seq::empty())
                } else {
                    Some((1int, Seq::empty()))
                };
                match rest {
                    Some((i, tags)) => if 0 <= i < t.len() && t[i] is Block && i + 1 == t.len() {
                        Some((comment, tags))
                    } else {
                        None
                    },
                    None => None,
                }
            },
            None => None,
        }
    }
}

/// The arguments of a `step!` call.
pub struct StepArgs {
    pub comment: String,
    pub tags: Vec<String>,
}

/// Reads the arguments of a `step!` call from its top-level tokens; `None`
/// when they do not fit `"description"[, "tag"…][,] { … }`.
pub fn parse_step_args(tokens: &Vec<ArgToken>) -> (r: Option<StepArgs>)
    ensures
        match step_args_spec(tokens@) {
            Some((c, tags)) => r is Some && r->0.comment@ == c && filter::string_views(
                r->0.tags@,
            ) == tags,
            None => r is None,
        },
{
    let len = tokens.len();
    if len == 0 {
        return None;
    }
    let comment = match &tokens[0] {
        ArgToken::Str(s) => s.clone(),
        _ => {
            return None;
        },
    };
    let mut tags: Vec<String> = Vec::new();
    let mut i: usize = 1;
    let has_comma = len > 1 && match &tokens[1] {
        ArgToken::Comma => true,
        _ => false,
    };
    assert(filter::string_views(tags@) == Seq::<Seq<char>>::empty());
    if has_comma {
        i = 2;
        loop
            invariant_except_break
                step_tags_from(tokens@, i as int, filter::string_views(tags@)) == step_tags_from(
                    tokens@,
                    2,
                    Seq::empty(),
                ),
            invariant
                2 <= i <= len + 1,
                len == tokens@.len(),
                len > 1 && tokens@[1] is Comma,
                str_value(tokens@[0]) == Some(comment@),
            ensures
                i <= len,
                step_tags_from(tokens@, 2, Seq::empty()) == Some(
                    (i as int, filter::string_views(tags@)),
                ),
            decreases len + 1 - i,
        {
            if i >= len {
                return None;
            }
            match &tokens[i] {
                ArgToken::Block => {
                    break;
                },
                ArgToken::Str(s) => {
                    let ghost before = tags@;
                    tags.push(s.clone());
                    assert(filter::string_views(tags@) =~= filter::string_views(before).push(
                        s@,
                    ));
                    let comma_next = i + 1 < len && match &tokens[i + 1] {
                        ArgToken::Comma => true,
                        _ => false,
                    };
                    if comma_next {
                        i = i + 2;
                    } else {
                        i = i + 1;
                        break;
                    }
                },
                _ => {
                    return None;
                },
            }
        }
    }
    if i < len && i == len - 1 {
        match &tokens[i] {
            ArgToken::Block => Some(StepArgs { comment, tags }),
            _ => None,
        }
    } else {
        None
    }
}

/// The tags of a `skip!` or `ignore!` call: `outer` are the call's
/// top-level tokens, `inner` the tokens inside its parentheses. The call
/// must be a parenthesised list of string literals followed by a block.
pub open spec fn tagged_block_spec(outer: Seq<ArgToken>, inner: Seq<ArgToken>) -> Option<
    Seq<Seq<char>>,
> {
    if outer.len() == 2 && outer[0] is Paren && outer[1] is Block {
        str_list(inner)
    } else {
        None
    }
}

/// Reads the tags of a `skip!` or `ignore!` call; `None` when the call is
/// not `("tag", …) { … }`.
pub fn parse_tagged_block(outer: &Vec<ArgToken>, inner: &Vec<ArgToken>) -> (r: Option<
    Vec<String>,
>)
    ensures
        match tagged_block_spec(outer@, inner@) {
            Some(l) => r is Some && filter::string_views(r->0@) == l,
            None => r is None,
        },
{
    if outer.len() != 2 {
        return None;
    }
    let shape = match (&outer[0], &outer[1]) {
        (ArgToken::Paren, ArgToken::Block) => true,
        _ => false,
    };
    if shape {
        parse_str_list(inner)
    } else {
        None
    }
}

/// The tags of a `wait!` call, which the filter checks before the pause:
/// none for `wait![]`, which always pauses; `None` when the arguments are
/// not a comma-separated list of string literals.
pub fn wait_call(tokens: &Vec<ArgToken>) -> (r: Option<Vec<String>>)
    ensures
        match str_list(tokens@) {
            Some(l) => r is Some && filter::string_views(r->0@) == l,
            None => r is None,
        },
{
    parse_str_list(tokens)
}

} // verus!
