# yei

The `yei` command-line tool adds [yei](https://github.com/aodihis/yei) UI
components to a Yew project (`yei init`, `yei add`, `yei list`,
`yei versions`, `yei upgrade`).

The logic of the tool is a library with proved specifications, under `src/`:

- `text`: character-level text operations (search, `trim_start_matches`,
  `replace`, `trim_end`) with their specifications;
- `config`: `yei.json` settings, the derived module path, and the lock of
  installed components (`yei.lock`) with map semantics;
- `registry`: registry metadata and the addresses of the registry API;
- `add`: request names and versions, import rewriting, the steps of
  installing one component, `mod.rs` and `Cargo.toml` lines;
- `resolve`: what `yei add` installs, in order: the requested components and
  all they depend on, each once, dependencies first, each at its pinned
  version (`name@version`) or the configured one;
- `css`: the edits `yei init` makes to the CSS entry file.

`app/` holds the command-line program: argument parsing, HTTP requests,
prompts, file access and JSON (de)serialisation, calling the library for
every decision. `tests/` exercises the library on concrete values.
