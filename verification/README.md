# longcut

A key-sequence driven command launcher for X11. A press of the launch key opens a layer of
shortcuts; each further press descends into a sub-layer or runs a command, whose parameters are
read from the keyboard before its shell steps run.

## Layout

- `src/` is the library, verified with Verus: keys and key parsing (`key`), shortcut maps with
  mnemonic assignment (`shortcut_map`), command templates and their rendering (`effect`,
  `command`), parameters and reading them (`parameter`, `parameter_input`), layers and the
  navigation and command execution state machines (`layer`, `navigation`, `execution`,
  `window`), the configuration schema and its checks (`config`), and the screen geometry of the
  views (`geometry`, `layout`, `property`, `color`, `object_store`).
- `app/` is the executable around it: command line, reading the YAML configuration, the session
  loop over the keyboard and the views, and running shell commands.
- `tests/` runs the library on concrete values.
