# char_editor

The core of a small modal (vi-like) terminal text editor, written in Verus
and verified.

- `src/` is the library. The text is a `ropey::Rope`, seen as its sequence of
  chars; every public function states what it does over that model.
  - `text`: the rope, its line model and the ropey calls it makes.
  - `keys`, `trie`, `commands`: key events, the key trie and the parser that
    turns keys into commands (count, operator, motion).
  - `ranges`, `scan`, `find`, `chars`: the motions and text objects.
  - `undo`: edits that can be carried out and taken back.
  - `editor`: the editor state and what every key does to it.
  - `screen`: what a frame of the editor shows.
  - `helpers`: file sizes and the parts of a `:%s/query/replacement/` command.
- `tests/` runs the library on concrete texts and keys.
- `app/` is the terminal program: it reads files and keys, draws frames with
  ratatui, highlights syntax with syntect and writes files when the editor
  asks for it.
