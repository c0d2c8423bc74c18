# pyfixy-lsp

A language server for pytest fixtures, whose logic is verified with Verus.

- `src/` is the library: it finds the fixtures of a project, decides which of them a file sees,
  and answers requests for completions, definitions, references, diagnostics and code actions.
  Every function states what it returns, and Verus proves it.
- `app/` is the program around it: it reads files and messages, and hands them over as plain
  values.
- `tests/` runs the library on small projects.

The library reads no files. What it knows of them is a `Workspace`: the paths that exist, with
the texts that could be read. Parsing Python is left to `ruff_python_parser`, and file URLs to
`url`; each of these calls stands behind one function that says what is relied on.

## Modules

| Module | What it is about |
| --- | --- |
| `text`, `bytes`, `position`, `path` | characters and byte offsets, UTF-8, editor positions, Unix paths |
| `syntax` | the part of a parsed module that the rules read |
| `workspace` | files, modules and plugin lists |
| `annotation`, `imports`, `requirements` | annotations as text, and the imports they need |
| `fixture`, `parameters` | fixtures and parameters in a text |
| `reexports`, `visibility`, `index` | fixtures across files, and which of them a file sees |
| `completion`, `navigation`, `diagnostics`, `edits` | what is answered |
| `applied`, `mending` | what edits make of a text, and what the action for a whole file leaves |
| `protocol`, `uri`, `wire`, `server` | messages, and what is kept between them |
