# glslint

A luma.gl / deck.gl-aware GLSL checker and language server. Shaders that
reference module-injected symbols aren't standalone translation units, so
glslint assembles the module fragments, dialect libraries and deck builtins into
a complete `#version 300 es` unit, validates it with glslangValidator, and maps
every diagnostic back to the original file and line.

## Layout

- `src/` — the library, verified with Verus: assembly and its line map
  (`assemble`), glslangValidator output parsing and mapping (`check`), lints,
  config and binding resolution, dialects and presets, `#include` splicing,
  JS/TS-embedded shaders (`embed`), binding derivation from `new Model(...)`
  calls (`derive`), the symbol index behind hover/definition/completion,
  uniform-type drift, and the editor-facing decisions of the language server
  (`editor`). File contents, deck's functions from `node_modules` and a
  project's presets reach it as a `Workspace`; a validator run reaches it as a
  `RunOutcome`.
- `app/` — the `glslint` binary: `check FILE...` and `lsp`. It reads files,
  parses TOML, runs glslangValidator and speaks LSP, handing everything it reads
  to the library.
- `tests/` — the library's tests.

Each module ends with its laws: proof functions stating what holds of every
input, such as that every mapped line of an assembled unit is a verbatim line
of the file it points at, and that every validator diagnostic lands on such a
line.
