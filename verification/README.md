# flash_tmux

A label-based text picker for tmux.  Run inside tmux, it captures the current
pane, opens a popup over it, and lets you type a query.  Every occurrence of the
query inside a whitespace-delimited token is highlighted, and each gets a label
while label characters remain that appear neither in the query, nor in the
match's token, nor right after any match.  Pressing a label copies that token
(lower-case label: copy and paste into the pane; upper-case: copy only).
Enter, Space and Tab pick the first visible match and paste it followed by
Enter, Space, or nothing.

## Layout

- `src/` is the library, written in Verus and verified:
  - `search.rs`: splitting the pane into lines, finding the matches, ordering
    them from the bottom right, handing out labels, deleting the previous
    word of the query, and trimming the punctuation around a picked token.
  - `ui.rs`: rendering a pane line with its highlighted matches and labels,
    the prompt line, and the picker's reaction to each terminal event.
  - `tmux.rs`: the tmux commands the program runs, how their output is read
    back, and how the picker's result travels through the popup's exit status.
  - `config.rs`: the built-in texts, label characters and styles.
  - `text.rs`, `decimal.rs`: character, UTF-8 length, trimming, splitting and
    decimal helpers with their specifications.
- `app/main.rs` is the program around it: command-line arguments, running
  tmux, the terminal event loop and drawing.
- `tests/` exercises the library on concrete inputs.

The escape sequences that the styles produce are stated as crossterm writes
them where it emits ANSI codes directly, as on Unix; on Windows crossterm may
go through the console API instead, which those statements do not cover.
