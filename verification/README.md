# git_ai

A library, verified with Verus, for tracking which lines of a git repository were
written by AI agents and which by people: authorship logs and their text format,
working-log checkpoints, attribution of lines and characters, blame output, the
argument parsers of the `git-ai` commands and the decisions its git hooks take.

Layout:

- `src/` — the verified library. Every public function carries a contract over
  mathematical models (`Seq`, `Map`, views of the library's types); proof functions
  state the laws that relate several functions (for example that the attestation
  section of an authorship log, written as text, reads back as the same attestations).
  The JSON metadata section is read and written with `serde_json` in `app/`, and no
  contract speaks of it.
- `tests/` — tests of the library on concrete values.
- `app/` — the program glue that cannot be verified: running git, files, the
  configuration file, JSON forms of the data, printing and paging.

Calls into outside crates (`sha2`, `glob`, `chrono`, `similar`) stand behind small
trusted wrappers whose contracts say what the crates' documentation promises.
