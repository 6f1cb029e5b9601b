# code_steps

Notebook-style code step display for Rust: show syntax-highlighted code in
the terminal, step by step, with `step!` / `wait!` / `skip!` / `ignore!`
control and a command-line tag filter.

The library (`src/`) is written in Verus and verified:

| Module       | What it holds |
|--------------|---------------|
| `text`       | whitespace, line splitting, trimming, decimal parsing, `&str` ↔ `Vec<char>` |
| `source`     | the display pipeline for a step's source: `dedent`, `restore_newlines`, `collapse_continuations`, `strip_comments`, `strip_ignores`, `strip_waits`, `strip_nested_steps`, `step_display` |
| `filter`     | the tag filter: reading the inclusion and exclusion flags, matching tags |
| `display`    | nesting path, header / separator / prompt / marker text, typewriter settings, raw terminal mode |
| `highlight`  | highlighting with syntect, rendering escaped lines, typewriter pieces |
| `macro_args` | the argument grammar of the four macros |
| `pipeline_laws` | laws of the source pipeline stages |

Every public function carries a contract over `Seq<char>` models. The laws
are public proof functions next to the code they describe:

- `pipeline_laws`: text without comment openers, `ignore![`, `step![` or
  `wait![` passes the matching stage unchanged; `strip_comments` only leaves
  characters out, leaves no comment opener behind, keeps every line ending
  when there are no block comments, and a second run changes nothing;
  `restore_newlines` leaves every `;` followed by a line ending, a `}` or the
  end, and a second run changes nothing; `strip_waits` keeps the text before
  the first call; `dedent` can always cut text whose whitespace is ASCII, and
  leaves its least indented line without indentation.
- `source`: `collapse_continuations` keeps every visible character.
- `filter`: the filter rules (an empty filter passes everything, an excluded
  tag blocks, an included tag passes, a call without tags always passes).
- `display`: leaving a step undoes entering it.
- `highlight`: rendered code shows each line of the code after its
  indentation, and the typewriter pieces of a line, alone or cut short by
  Enter and followed by the fast-forward text, show the line's text, once
  their color escapes are taken out.

`app/` is ordinary Rust around the library: stderr output, the global
nesting path, filter and typewriter state, raw terminal input, and the macro
expansions over `proc_macro2` token streams.
