//! A local-first, peer-to-peer synced store of hierarchical notes with
//! dependencies, a mutation log with undo/redo, and the decision logic of
//! the sync protocol.
pub mod display;
pub mod effects;
pub mod entities;
pub mod graph;
pub mod history;
pub mod invariants;
pub mod laws;
pub mod rank;
pub mod restore;
pub mod result;
pub mod storage;
pub mod sync;

pub use entities::{Action, Note, NoteId, PeerId, PeerInfo};
pub use result::{DbError, ShizenError, ShizenResult};
pub use storage::rusqlite::{DefaultStorage, RusqliteStorage};
pub use sync::{SyncRequest, SyncResponse, SyncResults};
