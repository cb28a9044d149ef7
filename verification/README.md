# ce-db

A document store whose replicas converge, verified with Verus.

A collection maps ids to JSON documents. Every device writes to a log of its own; an operation
replaces, patches or deletes one document, under a key made of a Lamport clock and the id of the
device. A device folds the operations that have reached it in the order of their keys, so that what
it reads depends on the set of operations alone.

## Layout

- `src/` is the library. Every item of it is verified, but for the few that call `serde_json` and
  the standard library; those say in their doc comments what is believed of the call.
  - `doc` folds operations into documents, `merge` keeps the union of the logs, `collection` is one
    device with its clock, its reads and its writes.
  - `convergence` proves what holds of every collection: replicas converge, the last writer wins
    field by field, a deleted document stays deleted until something newer names it, and a device
    reads back what it wrote.
  - `query` and `sort` answer queries; `json`, `number`, `map` and `text` are the values.
  - `parse`, `write`, `path`, `grant`, `report` and `error` serve the command line.
- `tests/` runs the library on concrete values.
- `app/` is the command line `ce-db`: it talks to the local node through `ce_coord`, and prints.
