//! The SQL schema of the store's tables, for keeping a store in an SQLite
//! database: the notes with their ranks, the hierarchy, the dependencies, the
//! mutation log and the redo queue, the known peers and the local settings,
//! and a view that gathers each note with its relations.
//!
//! This is the crate's own rendering of the tables that `RusqliteStorage`
//! keeps in memory. Nothing in the library or the command line runs it: the
//! store is held in vectors, and the command line saves it as JSON.
use vstd::prelude::*;

verus! {

/// The SQL script that creates the store's tables (the crate's own; nothing
/// here runs it).
pub const SQL_INIT: &'static str = "PRAGMA foreign_keys = ON;

CREATE TABLE SchemaVersion (
  version INTEGER NOT NULL
);
INSERT INTO SchemaVersion (version) VALUES (2);

CREATE TABLE LocalSettings (
  clock INTEGER NOT NULL,
  peer_id TEXT NOT NULL
);

CREATE TABLE Notes (
  uuid TEXT PRIMARY KEY NOT NULL,
  title TEXT NOT NULL,
  description TEXT,
  completed INTEGER NOT NULL DEFAULT 0,
  rank TEXT
);

CREATE TABLE Children (
  parent TEXT NOT NULL REFERENCES Notes(uuid) ON DELETE CASCADE,
  child TEXT NOT NULL UNIQUE REFERENCES Notes(uuid) ON DELETE CASCADE
);

CREATE TABLE Dependencies (
  blocker TEXT NOT NULL REFERENCES Notes(uuid) ON DELETE CASCADE,
  blockee TEXT NOT NULL REFERENCES Notes(uuid) ON DELETE CASCADE,
  UNIQUE (blocker, blockee)
);

CREATE TABLE Mutations (
  id INTEGER PRIMARY KEY AUTOINCREMENT,
  action_json TEXT NOT NULL,
  clock INTEGER NOT NULL
);

CREATE TABLE RedoMutations (
  id INTEGER PRIMARY KEY AUTOINCREMENT,
  action_json TEXT NOT NULL
);

CREATE TABLE Peers (
  peer_id TEXT PRIMARY KEY NOT NULL,
  clock INTEGER NOT NULL DEFAULT 0,
  addr TEXT NOT NULL
);

CREATE VIEW FullyQualifiedNotes AS
SELECT
  n.uuid AS uuid,
  n.title AS title,
  n.description AS description,
  c.parent AS parent,
  (SELECT group_concat(d.blockee) FROM Dependencies AS d WHERE d.blocker = n.uuid) AS blocks,
  (SELECT group_concat(d.blocker) FROM Dependencies AS d WHERE d.blockee = n.uuid) AS blocked,
  (SELECT group_concat(ch.child) FROM Children AS ch WHERE ch.parent = n.uuid) AS children,
  n.completed AS completed,
  EXISTS (
    SELECT 1 FROM Dependencies AS d INNER JOIN Notes AS b ON d.blocker = b.uuid
    WHERE d.blockee = n.uuid AND b.completed = 0
  ) AS is_blocked,
  n.rank AS rank
FROM Notes AS n
LEFT JOIN Children AS c ON c.child = n.uuid
ORDER BY n.rank;
";

/// The SQL script that creates the store's tables in an empty database.
pub fn libshizen_sql_init_str() -> (r: &'static str)
    ensures
        r@ == SQL_INIT@,
{
    SQL_INIT
}

} // verus!
