# libfim

The logic of fim, a vim-like terminal text editor that supports several keyboard layouts
(QWERTY, Dvorak, Colemak and layouts read from files), written in Verus and proved against
its contracts.

- `src/` is the verified library: text buffers indexed by grapheme cluster, a scapegoat tree
  ordered by key and reachable by rank, keyboard layouts, key binds, the configuration file
  format and the editor options, the command line, the context stack that routes key presses,
  and the window that lays out a document on the screen.
- `app/` is the program around it: argument handling, the terminal, files, and drawing what
  the library computes.
- `tests/` runs the library on concrete values.
