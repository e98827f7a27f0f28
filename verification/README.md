# boeidl

A verified library for the AEAT *diseños de registro* (BOE fixed-position
formats): a `.boe` model language, its parser and semantic validator, and the
runtime helpers that encode, decode and check fixed-position records.

Every function in `src/` is proved with Verus against a mathematical model, but
for one trusted wrapper of std (`String::push`):

- `lexer`, `parser`: the grammar of `.boe` files as spec functions over the
  token sequence; `parse` returns exactly the file that the grammar gives, or the
  grammar's error message when there is none.
- `validator`: `validate` returns exactly the diagnostics of `validate_spec`
  (duplicates, layout overlaps and gaps, unknown or forward references, envelope
  consistency); `layout` proves what that means: errors are reported exactly for
  the model's problems, each with its message, and a model without errors has
  its fields inside their record and disjoint, its references resolved and its
  envelope consistent. `messages` reads each error message back to its cause:
  a message is reported exactly when its cause holds in the model.
- `runtime`: field encoders and decoders over ISO-8859-1 bytes, with the
  round-trip laws in `runtime::roundtrip` and the sanitizer's laws in
  `runtime::sanitize`.
- `report`: the texts that the command-line tool prints (`inspect` table,
  semantic error report).

`app/` holds the command-line tool (`check`, `inspect`), which reads files and
prints what the library computes.
