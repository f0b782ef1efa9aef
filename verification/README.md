# rockmail

The logic of procmail-style mail handling (rcfile grammar, recipe
decisions, header editing, mailbox splitting, duplicate detection, log
statistics), written in Verus and proved against its contracts, with the
`formail`, `mailstat`, `lockfile` and `rcparse` programs around it.

## Layout

- `src/` — the verified library.
  - `config/` — the rcfile grammar: flags, conditions, actions, items, the
    parser (`config/parser/`, with a model of the whole parse in
    `model.rs`) and the layout of a human-readable dump (`config/dump`).
  - `field/` — header fields and field lists, with the laws of the list
    operations in `field/laws.rs`.
  - `formail/` — header rewriting, replies, senders, extraction, log
    summaries and the splitting of mailboxes.
  - `mailstat/` — reading a delivery log, totals and the statistics table.
  - `dedup.rs` — the duplicate cache: lookup and where a new key goes.
  - `delivery/` — folder kinds, maildir and MH names, mbox framing, pipes.
  - `engine.rs` — the decisions of recipe evaluation: chaining flags,
    outcomes, header edits, substitutions, log lines, and (in
    `engine/step.rs`) the step for each item of an rcfile, what a finished
    step means, and what setting a variable asks of the process.
  - `lockfile.rs`, `locking.rs`, `cli.rs` — exit codes and retry rules,
    lock names, and the command lines of the delivery agents.
  - `text.rs`, `num.rs` — character and number helpers shared by the rest.
- `app/` — the programs `formail`, `mailstat`, `lockfile` and `rcparse`:
  argument handling, files, locks, processes and printing around the
  library.
- `tests/` — tests of the library on concrete values.

Calls into std and outside crates whose results the proofs rely on go
through a few small trusted wrappers, each with its contract in a doc
comment next to it.
