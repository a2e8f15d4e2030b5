# kb

The rules of a personal knowledge bank, verified with Verus.

- `code_index`: the incremental index of a code base. What changed since the
  last run, which directories are in scope, which files hold secrets, what a
  run may spend, which calls it makes, what each reply writes, and how the
  summaries of files, modules and the repository follow from one another.
- `improve`: the pass that lets the bank feed back into an assistant's
  configuration. When a run is due, what it may touch, what it is told, whether
  its changes stand, and how its outcome is recorded and read back.
- `ingest`, `note`, `projects`, `eval`, `health`, `export`, `embed`: sessions,
  notes, project cards, retrieval scores, health reports, backups with merge,
  and the embedding client.
- `text`, `order`, `numeral`, `letters`, `width`, `path`, `textmap`, `b64`,
  `json`: what the rest is stated in.

`src/` is the verified library. Its contracts speak of sequences of characters
and of views of its types; the laws that relate several functions are public
proof functions whose names begin with `law_`. What the library takes on trust
(`serde_json`, `sha2`, and three functions of the standard library) stands in
`json.rs`, `code_index/summary.rs`, `letters.rs`, `b64.rs` and `text.rs`.

`app/` is ordinary Rust around it: processes, files, the database, the network,
and arithmetic on fractions. It reads the name of the assistant that it serves
from `KB_ASSISTANT`; without it, a note is still kept where no assistant of the
default name answers.

`tests/` runs the library. `tests/run.rs` holds a repository and a store in
memory, and takes whole index runs through the stages.
