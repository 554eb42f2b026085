# hurl-lsp

A language server for [Hurl](https://hurl.dev) files whose analyses are written in
Verus and proved against their specifications.

## Layout

- `src/` — the verified library. Text is modelled as `Seq<char>`; each public
  function states what it returns over spec functions of the document's text.
  - `text`, `numbers`, `syntax`: character-level primitives, lines, tokens,
    placeholders, sections and the variables visible at a line.
  - `diagnostics`, `completion`, `hover`, `definition`, `code_lens`, `symbols`,
    `inlay_hints`: the editor features.
  - `metadata`: `# key=value` test-case metadata above requests.
  - `variables`, `profiles`, `paths`, `openapi`: variables files, environment
    profiles, workspace folders, API documents.
  - `curl`: a request as a cURL command, with secrets masked for display.
  - `execution`, `report`, `runner`: run summaries, the JSON report of a run, and
    the decisions of a run.
  - `store`: the open documents and the reformatting edit.
  - `cli`, `version`, `protocol`, `lsp`: arguments, versions and wire values.
- `app/` — the server program: the editor protocol, the Hurl parser and formatter,
  the file system and child processes, around the library.
- `tests/` — tests of the library.
