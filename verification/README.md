# jj_core

The decisions that a version control program makes, as a library whose behaviour
is stated in contracts and proved by Verus: dominators of commit graphs, arranging
and rewriting commits, walking the evolution of commits, fixing and filtering file
contents, building trees, resolving layered configuration, splitting and
interpolating commands, reading what GPG and Watchman report, and the store of
operation heads.

- `src/` is the verified library. It neither reads nor writes anything: what was
  found on the disk, in the environment or in the output of a process is handed in,
  and what is to be done comes out.
- `app/` is ordinary Rust around it: processes, files, the terminal, the
  environment and the file monitor.
- `tests/` runs the library on concrete values.

Commits, operations, trees and paths are known by numbers. Equal numbers stand for
equal ids. Where an order matters (the components of paths in `tree_builder`, commits
in `evolution`), numbers are ordered as what they stand for.

A few calls into other crates (`shlex`, `regex`, `toml_edit`, `bstr`, `indexmap`,
`renderdag`) and into the standard library are made through functions whose contracts
are believed. Each says in its comment what is believed of which function.
