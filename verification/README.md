# quench

The parts of the Quench compiler and its tools that decide things, written in Verus and
proved against their contracts.

Quench is a small language whose errors are meant to be read. This library holds what
the compiler knows and decides without a parser or a code generator in hand: where an
offset falls in a file and how wide a caret under it is, what a project's settings say,
the types a program means and the rules they follow, how names and modules are resolved,
how a generic function's copies are made, how the heap collects, and how the differential
tester seeds its programs and reads its engines' answers.

## Layout

- `src/` — the verified library. Every function has a `requires`/`ensures` contract;
  the public proof functions named `law_…` state properties that hold across calls.
  - `text`, `chars`, `grapheme`, `source`, `diag`, `render` — text, positions, and the
    diagnostics a person reads.
  - `conf` — reading `QNL-Config.toml`, reporting every mistake in it.
  - `ty`, `checked`, `checker`, `holes`, `names` — types, the checked program, name and
    module resolution, type rules for operators, and filling generic holes.
  - `chains`, `calls`, `imports` — reading the chains in front of declarations,
    parameters and function headings; which function a call names; and what a file
    imports.
  - `values`, `arguments` — what a value written without operators means: terms,
    written values read at a type, `not`, `share` and `copy`, text joined from pieces,
    an array's elements counted and built into rows, and `print`; and a call to a
    function of the program, its arguments checked and its hole filled.
  - `heap` — the collector's spaces, handles, and what a collection keeps.
  - `gen`, `oracle` — seeds and settings for generated programs, and agreement between
    engines.
  - `program` — the files a program is made of and the `words` listing.
- `tests/` — tests of the library from outside.
- `app/` — the `quench` command: arguments, files, the environment and threads.
