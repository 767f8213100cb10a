# lib

Verified building blocks of a Lua 5.4 interpreter and its standard
libraries, written in Verus. Each public function states in its contract
what it computes, over mathematical models of its inputs, and Verus proves
the code against it.

## Layout

- `src/` — the verified library, one module per area:
  - `llex` — the lexer: tokens, numerals, strings and escapes, long
    brackets, and its error messages.
  - `loadstate` — the loader of precompiled (binary) chunks.
  - `lobject` — integer arithmetic of the virtual machine, integer and
    UTF-8 conversions, chunk ids, formatted messages.
  - `loads`, `longjump` — bookkeeping of growable arrays and error jumps.
  - `strlib`, `strformat`, `strpack` — the string library
    (`string.format`, `string.pack` and `string.unpack`, `%q` quoting…).
  - `tablib` — the table library, with a verified quicksort.
  - `utf8`, `mathlib`, `oslib`, `io`, `pkglib`, `baselib`, `dblib` — the
    rest of the standard libraries, where they decide or compute.
  - `toml`, `toml_writer`, `urllib`, `sh`, `midi` — the additional
    libraries: a TOML parser and writer, URL and HTTP header handling,
    shell quoting, MIDI messages and packet lists.
- `tests/` — tests of the library on concrete values.
- `app/` — the parts that touch the machine: files, processes, the clock
  and floating point, driven by the library's decisions.
