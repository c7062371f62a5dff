# umber

`umber` is a `cat` with syntax highlighting. This crate holds its text
processing as a library verified with Verus, and the command-line program
around it.

## Layout

- `src/` — the verified library:
  - `lines.rs`: counting, selecting (`--lines`, `#L…`) and squeezing lines
  - `numbering.rs`: line-number margins for bytes and for text
  - `unprintable.rs`: the visible forms of unprintable characters (`-A`)
  - `range.rs`: reading line ranges, `path#L<range>` specifications and
    standard-input paths
  - `style.rs`: the `--style` components
  - `options.rs`: colour, squeezing, inputs, file headers and the choice of
    highlight queries
  - `pager.rs`: choosing the pager command from `PAGER`
  - `stream.rs`: the output buffer and when it is written out
  - `changes.rs`: change marks read from a `git diff` without context
  - `decorate.rs`: the margin in front of a decorated line
  - `emit.rs`: what is written for a file that needs no highlighter
  - `highlight.rs`: the per-line decisions while highlighted text is written
  - `text.rs`, `chars.rs`: sequences, lines and characters shared by the rest
- `tests/` — tests of the library on concrete values.
- `app/` — the program: argument parsing, files, standard input, the pager
  and `git` processes, language detection, themes and the highlighter
  itself.

Each public function states its result in its `ensures`; the `law_*` proof
functions state properties that hold across calls, such as that a written
line range reads back as the same range, or that squeezing blank lines
twice changes nothing more.
