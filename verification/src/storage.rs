//! Storage of notes: the interface of a store, its model, and the store.
pub mod model;
pub mod rusqlite;
pub mod schema;

use vstd::prelude::*;

use crate::entities::{Action, Note, NoteId, PeerId, PeerInfo};
use crate::result::ShizenResult;

verus! {

/// The operations of a note store. A store must be valid to be used, and
/// every operation keeps it valid; an operation that records a change needs
/// room for one more clock value.
pub trait TodoStorage: Sized {
    spec fn valid(&self) -> bool;

    /// The current clock: the number of changes in the log.
    spec fn clock_value(&self) -> nat;

    // Create
    fn create_new_note(
        &mut self,
        title: &str,
        description: Option<&str>,
        parent: Option<&NoteId>,
    ) -> (r: ShizenResult<Note>)
        requires
            old(self).valid(),
            old(self).clock_value() < usize::MAX,
        ensures
            final(self).valid(),
    ;

    fn add_connected_peer(&mut self, peer_id: PeerId, clock: usize, addr: &str) -> (r: ShizenResult<()>)
        requires
            old(self).valid(),
        ensures
            final(self).valid(),
    ;

    // Read
    fn load_all_notes(&self) -> (r: ShizenResult<Vec<Note>>)
        requires
            self.valid(),
    ;

    fn load_all_incomplete_notes(&self) -> (r: ShizenResult<Vec<Note>>)
        requires
            self.valid(),
    ;

    fn load_all_complete_notes(&self) -> (r: ShizenResult<Vec<Note>>)
        requires
            self.valid(),
    ;

    fn load_all_unblocked_notes(&self, load_completed: bool) -> (r: ShizenResult<Vec<Note>>)
        requires
            self.valid(),
    ;

    fn load_all_changes_since_clock(&self, clock: usize) -> (r: ShizenResult<Vec<Action>>)
        requires
            self.valid(),
    ;

    fn load_redo_queue(&self) -> (r: ShizenResult<Vec<Action>>)
        requires
            self.valid(),
    ;

    fn load_note(&self, note_id: &NoteId) -> (r: ShizenResult<Note>)
        requires
            self.valid(),
    ;

    fn note_exists(&self, note_id: &NoteId) -> (r: ShizenResult<bool>)
        requires
            self.valid(),
    ;

    fn get_all_descendents(&self, note_id: &NoteId) -> (r: ShizenResult<Vec<Note>>)
        requires
            self.valid(),
    ;

    fn get_all_blocked(&self, note_id: &NoteId, recursive: bool) -> (r: ShizenResult<Vec<Note>>)
        requires
            self.valid(),
    ;

    fn get_peer_id(&self) -> (r: ShizenResult<PeerId>)
        requires
            self.valid(),
    ;

    fn get_clock(&self) -> (r: ShizenResult<usize>)
        requires
            self.valid(),
    ;

    fn get_peers(&self) -> (r: ShizenResult<Vec<PeerInfo>>)
        requires
            self.valid(),
    ;

    fn get_peer(&self, peer_id: &PeerId) -> (r: ShizenResult<PeerInfo>)
        requires
            self.valid(),
    ;

    // Update
    fn set_completed(&mut self, note_id: &NoteId, completed: bool) -> (r: ShizenResult<()>)
        requires
            old(self).valid(),
            old(self).clock_value() < usize::MAX,
        ensures
            final(self).valid(),
    ;

    fn update_title(&mut self, note_id: &NoteId, title: &str) -> (r: ShizenResult<()>)
        requires
            old(self).valid(),
            old(self).clock_value() < usize::MAX,
        ensures
            final(self).valid(),
    ;

    fn update_description(&mut self, note_id: &NoteId, description: Option<&str>) -> (r: ShizenResult<()>)
        requires
            old(self).valid(),
            old(self).clock_value() < usize::MAX,
        ensures
            final(self).valid(),
    ;

    fn update_parent(&mut self, note_id: &NoteId, parent: Option<&NoteId>) -> (r: ShizenResult<()>)
        requires
            old(self).valid(),
            old(self).clock_value() < usize::MAX,
        ensures
            final(self).valid(),
    ;

    fn add_blocked_note(&mut self, note_id: &NoteId, blocked_note: &NoteId) -> (r: ShizenResult<()>)
        requires
            old(self).valid(),
            old(self).clock_value() < usize::MAX,
        ensures
            final(self).valid(),
    ;

    fn remove_blocked_note(&mut self, note_id: &NoteId, blocked_note: &NoteId) -> (r: ShizenResult<()>)
        requires
            old(self).valid(),
            old(self).clock_value() < usize::MAX,
        ensures
            final(self).valid(),
    ;

    fn set_peer_clock(&mut self, peer_id: &PeerId, clock: usize) -> (r: ShizenResult<()>)
        requires
            old(self).valid(),
        ensures
            final(self).valid(),
    ;

    fn adjust_rank_between(
        &mut self,
        note_id: &NoteId,
        after: Option<&NoteId>,
        before: Option<&NoteId>,
    ) -> (r: ShizenResult<()>)
        requires
            old(self).valid(),
            old(self).clock_value() < usize::MAX,
        ensures
            final(self).valid(),
    ;

    fn apply_action(&mut self, action: &Action) -> (r: ShizenResult<()>)
        requires
            old(self).valid(),
            old(self).clock_value() < usize::MAX,
        ensures
            final(self).valid(),
    ;

    /// Returns the value the clock was rewinded to.
    fn undo(&mut self) -> (r: ShizenResult<usize>)
        requires
            old(self).valid(),
        ensures
            final(self).valid(),
    ;

    fn redo(&mut self) -> (r: ShizenResult<usize>)
        requires
            old(self).valid(),
            old(self).clock_value() < usize::MAX,
        ensures
            final(self).valid(),
    ;

    // Delete
    fn delete_note(&mut self, note_id: &NoteId) -> (r: ShizenResult<()>)
        requires
            old(self).valid(),
            old(self).clock_value() < usize::MAX,
        ensures
            final(self).valid(),
    ;

    fn remove_peer(&mut self, peer_id: &PeerId) -> (r: ShizenResult<()>)
        requires
            old(self).valid(),
        ensures
            final(self).valid(),
    ;
}

} // verus!
