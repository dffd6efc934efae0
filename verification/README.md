# libshizen

A local-first store of hierarchical notes ("todos") with dependencies between
them, a mutation log with undo and redo, a user-chosen order of the notes
(LexoRank ranks), and a peer-to-peer sync protocol that rebases the local
changes on a peer's changes. The library is written in Verus: every
operation has a contract over a mathematical model of the store, and the
laws that tie the operations together are proved.

## Layout

- `src/storage/model.rs`: the model. A store is a value `StoreV` (rows of
  notes, dependency edges, the log, the redo queue, peers); every operation
  is a spec function from a store to a new store or an error.
- `src/storage/rusqlite.rs`: `RusqliteStorage`, the executable store, and the
  `TodoStorage` operations with contracts over the model; `StoreContents`
  saves and restores a store table by table.
- `src/storage/schema.rs`: the SQL schema of the store's tables.
- `src/graph.rs`: reachability over edge lists, with a verified search.
- `src/rank.rs`: rank texts and their order, and the calls into `lexorank`.
- `src/entities.rs`, `src/result.rs`: ids (UUID values, through `uuid`),
  notes, actions, peers, errors.
- `src/sync.rs`: protocol messages, framing, answering requests and rebasing
  on a response.
- `src/display.rs`: the text of notes and peers.
- `src/laws.rs`, `src/invariants.rs`, `src/restore.rs`: the laws (undo and
  redo of each change, acyclic dependencies and hierarchy, deletion of
  subtrees, read-back of created notes, rank order, undoing a deletion).
- `app/`: the command line (`clap`), the store kept as a JSON file, and the
  protocol over TCP (`serde_json` on copies of the library's types).
