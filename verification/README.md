# translator

Converts the build graph a C/C++ build system reports into a standalone
Bazel module (`MODULE.bazel` and `BUILD.bazel`), escalating what it cannot
decide as `needs_attention/` items instead of guessing.

Two frontends read into one build-system-neutral model (`model`), which a
single code generator (`codegen`) renders:

- **CMake** (`cmake_api`, `ctest`, `configure_file`): the File API replies,
  the `--trace-expand` output and `ctest --show-only=json-v1`.
- **Autotools** (`autotools`, `autotools_graph`, `autotools_discover`,
  `config_header`): make's echoed command stream, its variable database
  (`make -p`) and `config.status`.

`dependencies` resolves libraries a project links to converted dependency
modules; `headers` stages headers no target enumerated; `paths` and `text`
hold the lexical path and string operations everything is stated over.

## Layout

- `src/` is the library. Every function carries a Verus contract over
  mathematical models (`Seq`, spec functions and views), and the laws the
  library keeps across calls are public `law_*` proof functions. The only
  trusted items are the wrappers of `String::push` and
  `char::is_alphanumeric`.
- `app/` runs CMake, `configure` and `make`, walks and reads the trees, and
  parses the JSON replies with serde, handing the library plain values.
- `tests/` exercises the library on captured build output.
