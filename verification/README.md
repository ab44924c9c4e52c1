# installer

Reads an application list and a dependency list (TOML), lets the user pick
applications from menu groups, and writes a parameters file and the list of
packages still to install.

- `src/` is the verified library:
  - `text.rs`: searching, splitting, trimming and decimal numbers on strings;
  - `installer.rs`: the list tables, the selection of applications (each at
    most once, in selection order) and the parameters file, the menu groups
    built from `extra` tables, and the output texts;
  - `menu.rs`: applications, groups keyed by name, menus, and the prompt that
    lists a group and turns one answer into selections;
  - `utils.rs`: path completion, numbers, backup paths, `os-release` reading;
  - `cli.rs`: the command-line options and the decisions a run takes;
  - `conf.rs`: the configuration paths.
- `app/` is the program: command-line parsing, reading the TOML files, the
  line editor loop, the pacman database and the file writes.
- `tests/` runs the library on concrete values.
