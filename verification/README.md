# grimoire

Declarative state for personal Linux desktops. A *spell* describes one
piece of desired machine state: how to `verify` it, how to read its version,
and one or more `cast` channels that reach it (a shell snippet, a distro
package manager, a compose project). A manifest lists the spells a project
or machine wants; `grimoire cast` resolves their `requires:` graph and casts
what is missing or outdated, `grimoire scry` reports state without changing
anything.

## Layout

- `src/` is the library, verified with Verus. Every function carries a
  contract over a mathematical model of its data (`Seq<char>` for strings,
  `Map` for the grimoire and `.env` files), and the laws of the library are
  proof functions:
  - `version`, `constraint`: version ordering and requirement parsing;
  - `spell`, `grimoire`, `manifest`, `config`, `envmap`: the data model and
    its validation;
  - `topo`, `resolve`: dependency expansion and the topological plan, with
    the plan's laws (each spell once, dependencies first, comparators
    AND-merged, a cycle exactly when a stuck set exists);
  - `scry`, `cast`, `cli`: what a spell's state is and what `cast`, `scry`
    and `ls` decide and print;
  - `compose`, `desktop`, `system_deps`, `upgrade`, `distro`, `shell`,
    `state`: parameter layering and `.env` text (which reads back as it was
    written), shell quoting (which a shell reads back as the quoted text),
    desktop entries, package plans, release checks, `os-release` parsing;
  - `text`: the character-level string operations the rest is stated in.
- `app/` is the program around the library: command-line parsing, YAML,
  TOML and JSON files, the SQLite cast log, and running `bash`.
- `tests/` runs the library on concrete values.
