# recall

Search and act on shell command history with optional context (timestamps,
working directories) and regex filtering.

A shell hook logs each command to `~/.bash_history_extended` as
`timestamp,base64(directory),base64(command)`. `recall` reads the tail of
that log, filters and deduplicates the entries, and shows a numbered menu;
typing a number copies that command to the clipboard (or, in context mode,
shows the commands run around it).

## Layout

- `src/` — the library, verified with Verus:
  - `tail.rs` — the backwards scan of the log for the start of its last
    lines, and the split of the text read into lines;
  - `history.rs` — parsing of log lines, deduplication, filtering;
  - `display.rs` — menu entries: `~` for the home directory, short times;
  - `picker.rs` — menu layout and the key bindings of the picker;
  - `context.rs` — the lines shown around a chosen command;
  - `clipboard.rs` — which clipboard tools are tried, and the OSC 52 sequence;
  - `config.rs` — default settings and the settings file's location;
  - `encoding.rs` — base64 (standard alphabet, padded), through the `base64` crate;
  - `text.rs` — character and byte level string helpers.
- `app/` — the program: command line, files, terminal, clipboard processes.
- `tests/` — tests of the library.
