# apl

An APL interpreter library written in Verus: the tokenizer, parser and
evaluator, the primitive functions, the system variables and system
commands, each with a contract proved by Verus.

- `src/` is the verified library. `src/parser.rs` holds the workspace
  (`Environment`), the parser and the evaluator; the primitives live in
  modules of their own (`rotate.rs`, `sort.rs`, `partition.rs`, …);
  `syscmd.rs` decides every system command.
- `tests/` runs the library on concrete programs.
- `app/` is the thin layer around it: the file system, the directory and
  the `⎕FIO` handles.
