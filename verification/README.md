# agentic-sync

Reads a project's agent configuration (an instructions file split on `## `
headings, rules files, skill files and `.mcp.json`) and renders the native
configuration of other AI coding tools from it: `.cursor/rules/*.mdc`,
`.cursor/skills/*.mdc`, `.cursor/mcp.json` and
`.github/copilot-instructions.md`.

## Layout

- `src/` is the library, verified with Verus. Every public function states
  what it returns in its contract, over spec functions on `Seq<char>` and the
  views of the library's types; the `law_*` proof functions state what holds
  across functions (slugs, sections, ownership markers, the `.gitattributes`
  section).
  - `parse/`: the instructions file, rules files, skill files and MCP file,
    read from their text into `ir::ProjectConfig`.
  - `generate/`: the files rendered for each target.
  - `output.rs`: what a check, fix, cleanup and drift report decide, given
    what is on disk.
  - `gitattributes.rs`: the managed `linguist-generated` section.
  - `text.rs`: the character-level operations that the parsers use.
  - `path.rs`: paths read component by component, as `std::path` reads
    them: their order and equality.
  - `json.rs`: JSON values as plain data (`Json`), read and printed by
    `serde_json` through trusted calls.
- `app/` is the command-line program: argument handling, reading and writing
  files, and printing. It hands the library plain values.
- `tests/` exercises the library on concrete inputs.
