# shelve

A verified library and a small program for opening configured folders and
shelving PDFs on macOS.

Folders come from a configuration: flat `[[locations]]`, or (version 2)
sections with a root, pinned folders below it and optionally its direct
subfolders. They are shown as lettered groups (`A`, `B`, ..., `Z`, `AA`,
...) of numbered entries, and a selector such as `B2` or `a0` picks one.

- `src/` is the library, verified with Verus: text handling (`text`),
  paths (`paths`), locations, groups and selectors (`picker`), the menu
  and prompt (`menu`), the configuration (`config`), choosing files
  (`sources`), finding candidate PDFs and planning moves (`moves`), the
  steps of a batch of moves from the files menu to the last move
  (`batch`), the command line (`cli`), and the laws that hold across them
  (`laws`).
- `app/` is the program: environment, TOML, terminal, file system and
  Finder around the library. It answers each action of a batch with what
  the user or the file system said.
- `tests/` runs the library on concrete values.
