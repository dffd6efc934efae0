//! The note store. It keeps its tables as vectors: the rows of the notes in
//! the order they were inserted, the dependency edges, the mutation log, the
//! redo queue and the known peers. Each operation either succeeds as a whole
//! or is refused and leaves the store unchanged.
use vstd::prelude::*;

use crate::entities::{copy_opt_text, opt_text, Action, ActionV, Note, NoteV, NoteId, PeerId, PeerInfo, PeerInfoV};
use crate::result::{DbError, ErrorV, ShizenError, ShizenResult};
use crate::storage::TodoStorage;
use crate::graph::{contains_id, reachable, reachable_from, reaches};
use crate::rank::{
    lemma_same_bucket_order, lemma_text_lt_irreflexive, lemma_text_lt_transitive, rank_lt, rank_part,
    text_lt,
    has_bar, lexorank_between, lexorank_new, lexorank_next, lexorank_prev, lexorank_rank_part,
    rank_less, rank_parse_error,
};
use crate::storage::model::{
    rank_ok, ranks_ok, lemma_max_rank, lemma_ranks_ok_keep, lemma_ranks_ok_same_ranks,
    adjust_rank_op, all_notes, apply_reorder, blocked_by, complete_notes, create_note,
    created_note, descendants, incomplete_notes, insert_pos, is_blocked, max_rank, new_rank,
    notes_where, opt_rank_text, rank_between, rank_order, rank_text, sort_idx, unblocked_notes,
    with_rank, lemma_keep_ext, lemma_sort_idx_bound, add_known_peer_op, add_peer_record,
    changes_since, has_peer, peer_of, unique_peers, with_peer_clock, adopt_children, apply_action,
    insert_dep, insert_deps, lemma_adopt_err, lemma_insert_deps_err, orphan, redo, remove_note,
    restore_note, revert_action, undo, avoids, not_edge, edges_into, edges_out_of,
    lemma_revert_keeps_log, lemma_apply_keeps_redo,
    apply_add_dependency, apply_change_parent, apply_delete_note, apply_remove_dependency,
    apply_set_completed, apply_update_description, apply_update_title, blockees_of, blockers_of,
    children_of, has_row, in_subtree, keep, lemma_keep_contains, lemma_keep_has_row,
    lemma_keep_no_dup, lemma_keep_push, lemma_keep_unique_ids, lemma_parent_edges_contains,
    lemma_parent_edges_from_rows, lemma_push_contains, lemma_row_of, lemma_same_ids,
    lemma_same_shape, note_view, outcome_is, parent_edges, record, row_of, same_ids,
    set_completed_op, store_wf, unique_ids, update_description_op, update_parent_op,
    update_title_op, with_completed, with_description, with_parent, with_title, RowV, StoreV,
};

pub use crate::storage::schema::libshizen_sql_init_str;

verus! {

/// The stored fields of a note.
pub struct NoteRow {
    pub id: NoteId,
    pub title: String,
    pub description: Option<String>,
    pub completed: bool,
    pub parent: Option<NoteId>,
    pub rank: Option<String>,
}

impl View for NoteRow {
    type V = RowV;

    open spec fn view(&self) -> RowV {
        RowV {
            id: self.id,
            title: self.title@,
            description: opt_text(self.description),
            completed: self.completed,
            parent: self.parent,
            rank: opt_text(self.rank),
        }
    }
}

/// A store of notes, dependencies, the mutation log and peers. Despite its
/// name, which the library's interface keeps, it holds no SQLite database:
/// its tables are vectors, and `schema.rs` gives their SQL form.
pub struct RusqliteStorage {
    peer_id: PeerId,
    clock: usize,
    notes: Vec<NoteRow>,
    dependencies: Vec<(NoteId, NoteId)>,
    mutations: Vec<Action>,
    redo_mutations: Vec<Action>,
    peers: Vec<PeerInfo>,
}

pub open spec fn rows_view(v: Seq<NoteRow>) -> Seq<RowV> {
    v.map_values(|r: NoteRow| r@)
}

pub open spec fn actions_view(v: Seq<Action>) -> Seq<ActionV> {
    v.map_values(|a: Action| a@)
}

pub open spec fn peers_view(v: Seq<PeerInfo>) -> Seq<PeerInfoV> {
    v.map_values(|p: PeerInfo| p@)
}

pub open spec fn notes_view(v: Seq<Note>) -> Seq<NoteV> {
    v.map_values(|n: Note| n@)
}

impl View for RusqliteStorage {
    type V = StoreV;

    closed spec fn view(&self) -> StoreV {
        StoreV {
            peer_id: self.peer_id,
            clock: self.clock as nat,
            notes: rows_view(self.notes@),
            deps: self.dependencies@,
            mutations: actions_view(self.mutations@),
            redo: actions_view(self.redo_mutations@),
            peers: peers_view(self.peers@),
        }
    }
}

impl RusqliteStorage {
    /// A valid store.
    pub open spec fn wf(&self) -> bool {
        store_wf(self@)
    }

    /// A new, empty store with a random (version 4) peer id and its clock at 0.
    pub fn open_in_memory() -> (s: RusqliteStorage)
        ensures
            s.wf(),
            crate::entities::uuid_is_v4(s@.peer_id.0),
            s@.clock == 0,
            s@.notes.len() == 0,
            s@.deps.len() == 0,
            s@.mutations.len() == 0,
            s@.redo.len() == 0,
            s@.peers.len() == 0,
    {
        let s = RusqliteStorage {
            peer_id: PeerId::new_random(),
            clock: 0,
            notes: Vec::new(),
            dependencies: Vec::new(),
            mutations: Vec::new(),
            redo_mutations: Vec::new(),
            peers: Vec::new(),
        };
        assert(s@.notes =~= Seq::<RowV>::empty());
        assert(s@.mutations =~= Seq::<ActionV>::empty());
        assert(s@.redo =~= Seq::<ActionV>::empty());
        assert(s@.peers =~= Seq::<PeerInfoV>::empty());
        s
    }

    /// The id of this store.
    pub(crate) fn own_peer_id(&self) -> (p: PeerId)
        ensures
            p == self@.peer_id,
    {
        self.peer_id
    }

    /// The index of the row of `id`, if there is one.
    fn find_note(&self, id: NoteId) -> (r: Option<usize>)
        requires
            self.wf(),
        ensures
            match r {
                Some(i) => i < self.notes@.len() && self@.notes[i as int].id == id
                    && has_row(self@.notes, id) && row_of(self@.notes, id) == self@.notes[i as int],
                None => !has_row(self@.notes, id),
            },
    {
        let mut i: usize = 0;
        while i < self.notes.len()
            invariant
                self.wf(),
                i <= self.notes@.len(),
                forall|j: int| 0 <= j < i ==> self@.notes[j].id != id,
            decreases self.notes.len() - i,
        {
            if self.notes[i].id == id {
                proof {
                    lemma_row_of(self@.notes, i as int);
                }
                return Some(i);
            }
            i = i + 1;
        }
        None
    }

    /// Appends `a` to the log at the current clock and advances the clock.
    fn record(&mut self, a: Action)
        requires
            old(self).clock < usize::MAX,
        ensures
            final(self)@ == record(old(self)@, a@),
    {
        self.mutations.push(a);
        self.clock = self.clock + 1;
        assert(self@.mutations =~= old(self)@.mutations.push(a@));
        assert(self@ =~= record(old(self)@, a@));
    }

    /// Sets the completion of the note `id`, if it exists, and records it.
    fn apply_set_completed_exec(&mut self, id: NoteId, new: bool, old_value: bool)
        requires
            old(self).wf(),
            old(self)@.clock < usize::MAX,
        ensures
            final(self).wf(),
            final(self)@ == apply_set_completed(old(self)@, id, new, old_value),
    {
        let ghost s0 = self@;
        match self.find_note(id) {
            Some(i) => {
                self.notes[i].completed = new;
            },
            None => {},
        }
        assert(self@.notes =~= with_completed(s0.notes, id, new));
        proof {
            lemma_same_shape(s0, self@);
        }
        self.record(Action::SetCompleted { id, new_completed: new, old_completed: old_value });
        proof {
            lemma_same_shape(s0, self@);
        }
    }

    /// Sets the title of the note `id`, if it exists, and records it.
    fn apply_update_title_exec(&mut self, id: NoteId, new: String, old_value: String)
        requires
            old(self).wf(),
            old(self)@.clock < usize::MAX,
        ensures
            final(self).wf(),
            final(self)@ == apply_update_title(old(self)@, id, new@, old_value@),
    {
        let ghost s0 = self@;
        match self.find_note(id) {
            Some(i) => {
                self.notes[i].title = new.clone();
            },
            None => {},
        }
        assert(self@.notes =~= with_title(s0.notes, id, new@));
        proof {
            lemma_same_shape(s0, self@);
        }
        self.record(Action::UpdateTitle { id, old_title: old_value, new_title: new });
        proof {
            lemma_same_shape(s0, self@);
        }
    }

    /// Sets the description of the note `id`, if it exists, and records it.
    fn apply_update_description_exec(
        &mut self,
        id: NoteId,
        new: Option<String>,
        old_value: Option<String>,
    )
        requires
            old(self).wf(),
            old(self)@.clock < usize::MAX,
        ensures
            final(self).wf(),
            final(self)@ == apply_update_description(
                old(self)@,
                id,
                opt_text(new),
                opt_text(old_value),
            ),
    {
        let ghost s0 = self@;
        match self.find_note(id) {
            Some(i) => {
                self.notes[i].description = copy_opt_text(&new);
            },
            None => {},
        }
        assert(self@.notes =~= with_description(s0.notes, id, opt_text(new)));
        proof {
            lemma_same_shape(s0, self@);
        }
        self.record(
            Action::UpdateDescription { id, old_description: old_value, new_description: new },
        );
        proof {
            lemma_same_shape(s0, self@);
        }
    }

}

impl NoteRow {
    /// A copy of the row.
    pub fn duplicate(&self) -> (r: NoteRow)
        ensures
            r@ == self@,
    {
        NoteRow {
            id: self.id,
            title: self.title.clone(),
            description: copy_opt_text(&self.description),
            completed: self.completed,
            parent: self.parent,
            rank: copy_opt_text(&self.rank),
        }
    }
}

/// Whether the edge `e` is one of `v`.
fn contains_edge(v: &Vec<(NoteId, NoteId)>, e: (NoteId, NoteId)) -> (r: bool)
    ensures
        r == v@.contains(e),
{
    let mut i: usize = 0;
    while i < v.len()
        invariant
            i <= v.len(),
            forall|j: int| 0 <= j < i ==> v@[j] != e,
        decreases v.len() - i,
    {
        let (a, b) = v[i];
        if a == e.0 && b == e.1 {
            return true;
        }
        i = i + 1;
    }
    false
}

/// The edges of `v` other than `e`.
fn without_edge(v: &Vec<(NoteId, NoteId)>, e: (NoteId, NoteId)) -> (r: Vec<(NoteId, NoteId)>)
    ensures
        r@ == keep(v@, not_edge(e)),
{
    let ghost f = not_edge(e);
    let mut r: Vec<(NoteId, NoteId)> = Vec::new();
    let mut i: usize = 0;
    while i < v.len()
        invariant
            i <= v.len(),
            f == not_edge(e),
            r@ == keep(v@.subrange(0, i as int), f),
        decreases v.len() - i,
    {
        let (a, b) = v[i];
        proof {
            assert(v@.subrange(0, i + 1) =~= v@.subrange(0, i as int).push(v@[i as int]));
            lemma_keep_push(v@.subrange(0, i as int), f, v@[i as int]);
        }
        let keep_it = !(a == e.0 && b == e.1);
        assert(v@[i as int] == (a, b));
        assert(keep_it == f(v@[i as int]));
        if keep_it {
            r.push((a, b));
        }
        i = i + 1;
    }
    assert(v@.subrange(0, v@.len() as int) =~= v@);
    r
}

impl RusqliteStorage {
    /// The edges parent -> child of the hierarchy.
    fn parent_edge_list(&self) -> (e: Vec<(NoteId, NoteId)>)
        ensures
            e@ == parent_edges(self@.notes),
    {
        let mut e: Vec<(NoteId, NoteId)> = Vec::new();
        let mut i: usize = 0;
        while i < self.notes.len()
            invariant
                i <= self.notes@.len(),
                e@ == parent_edges(self@.notes.subrange(0, i as int)),
            decreases self.notes.len() - i,
        {
            assert(self@.notes.subrange(0, i + 1).drop_last() =~= self@.notes.subrange(0, i as int));
            match self.notes[i].parent {
                Some(p) => {
                    e.push((p, self.notes[i].id));
                },
                None => {},
            }
            i = i + 1;
        }
        assert(self@.notes.subrange(0, self@.notes.len() as int) =~= self@.notes);
        e
    }

    /// The ids of the children of `id`.
    fn children_list(&self, id: NoteId) -> (c: Vec<NoteId>)
        ensures
            c@ == children_of(self@.notes, id),
    {
        let mut c: Vec<NoteId> = Vec::new();
        let mut i: usize = 0;
        while i < self.notes.len()
            invariant
                i <= self.notes@.len(),
                c@ == children_of(self@.notes.subrange(0, i as int), id),
            decreases self.notes.len() - i,
        {
            assert(self@.notes.subrange(0, i + 1).drop_last() =~= self@.notes.subrange(0, i as int));
            if self.notes[i].parent == Some(id) {
                c.push(self.notes[i].id);
            }
            i = i + 1;
        }
        assert(self@.notes.subrange(0, self@.notes.len() as int) =~= self@.notes);
        c
    }

    /// The notes that `id` blocks.
    fn blockees_list(&self, id: NoteId) -> (c: Vec<NoteId>)
        ensures
            c@ == blockees_of(self@.deps, id),
    {
        let mut c: Vec<NoteId> = Vec::new();
        let mut i: usize = 0;
        while i < self.dependencies.len()
            invariant
                i <= self@.deps.len(),
                c@ == blockees_of(self@.deps.subrange(0, i as int), id),
            decreases self.dependencies.len() - i,
        {
            assert(self@.deps.subrange(0, i + 1).drop_last() =~= self@.deps.subrange(0, i as int));
            let (a, b) = self.dependencies[i];
            if a == id {
                c.push(b);
            }
            i = i + 1;
        }
        assert(self@.deps.subrange(0, self@.deps.len() as int) =~= self@.deps);
        c
    }

    /// The notes that block `id`.
    fn blockers_list(&self, id: NoteId) -> (c: Vec<NoteId>)
        ensures
            c@ == blockers_of(self@.deps, id),
    {
        let mut c: Vec<NoteId> = Vec::new();
        let mut i: usize = 0;
        while i < self.dependencies.len()
            invariant
                i <= self@.deps.len(),
                c@ == blockers_of(self@.deps.subrange(0, i as int), id),
            decreases self.dependencies.len() - i,
        {
            assert(self@.deps.subrange(0, i + 1).drop_last() =~= self@.deps.subrange(0, i as int));
            let (a, b) = self.dependencies[i];
            if b == id {
                c.push(a);
            }
            i = i + 1;
        }
        assert(self@.deps.subrange(0, self@.deps.len() as int) =~= self@.deps);
        c
    }

    /// The note of the row at index `i`, with its relations.
    fn build_note(&self, i: usize) -> (n: Note)
        requires
            i < self@.notes.len(),
        ensures
            n@ == note_view(self@, self@.notes[i as int]),
    {
        let row = &self.notes[i];
        Note {
            id: row.id,
            title: row.title.clone(),
            description: copy_opt_text(&row.description),
            completed: row.completed,
            parent_id: row.parent,
            children_ids: self.children_list(row.id),
            notes_this_blocks: self.blockees_list(row.id),
            notes_blocking_this: self.blockers_list(row.id),
        }
    }

    /// Moves the note `id` under `new` (checking that it is neither `id` nor
    /// one of its descendants) and records the change with the old parent `old_value`.
    fn apply_change_parent_exec(
        &mut self,
        id: NoteId,
        new: Option<NoteId>,
        old_value: Option<NoteId>,
    ) -> (r: ShizenResult<()>)
        requires
            old(self).wf(),
            old(self)@.clock < usize::MAX,
        ensures
            final(self).wf(),
            outcome_is(
                r,
                old(self)@,
                final(self)@,
                apply_change_parent(old(self)@, id, new, old_value),
            ),
    {
        let ghost s0 = self@;
        let i = match self.find_note(id) {
            None => {
                return Err(ShizenError::NoSuchNote(id));
            },
            Some(i) => i,
        };
        match new {
            None => {},
            Some(p) => {
                if self.find_note(p).is_none() {
                    return Err(ShizenError::NoSuchNote(p));
                }
                let edges = self.parent_edge_list();
                if p == id || reaches(&edges, id, p) {
                    return Err(ShizenError::ParentCircularReference(p, id));
                }
            },
        }
        self.notes[i].parent = new;
        assert(self@.notes =~= with_parent(s0.notes, id, new));
        proof {
            lemma_same_ids(s0.notes, self@.notes);
        }
        self.record(Action::ChangeParent { id, old_parent: old_value, new_parent: new });
        proof {
            lemma_same_ids(s0.notes, self@.notes);
            assert forall|j: int|
                0 <= j < self@.notes.len() && (#[trigger] self@.notes[j]).parent is Some implies has_row(
                self@.notes,
                self@.notes[j].parent->0,
            ) by {
                if j != i {
                    assert(s0.notes[j].parent is Some);
                }
            }
        }
        Ok(())
    }

    /// Makes `a` block `b`, refusing a cycle, and records the change.
    fn apply_add_dependency_exec(&mut self, a: NoteId, b: NoteId) -> (r: ShizenResult<()>)
        requires
            old(self).wf(),
            old(self)@.clock < usize::MAX,
        ensures
            final(self).wf(),
            outcome_is(r, old(self)@, final(self)@, apply_add_dependency(old(self)@, a, b)),
    {
        let ghost s0 = self@;
        if self.find_note(a).is_none() {
            return Err(ShizenError::NoSuchNote(a));
        }
        if self.find_note(b).is_none() {
            return Err(ShizenError::NoSuchNote(b));
        }
        if a == b || reaches(&self.dependencies, b, a) {
            return Err(ShizenError::DependencyCircularReference(a, b));
        }
        if contains_edge(&self.dependencies, (a, b)) {
            return Err(ShizenError::RusqliteError(DbError::UniqueConstraintFailed));
        }
        self.dependencies.push((a, b));
        self.record(Action::AddDependency { blocker: a, blockee: b });
        proof {
            assert forall|e: (NoteId, NoteId)| #[trigger]
                self@.deps.contains(e) implies has_row(self@.notes, e.0) && has_row(
                self@.notes,
                e.1,
            ) by {
                lemma_push_contains(s0.deps, (a, b), e);
            }
            assert(self@.deps.no_duplicates()) by {
                let d = self@.deps;
                assert forall|i: int, j: int|
                    0 <= i < d.len() && 0 <= j < d.len() && i != j implies d[i] != d[j] by {
                    if i < s0.deps.len() && j < s0.deps.len() {
                    } else if i < s0.deps.len() {
                        assert(s0.deps.contains(d[i]));
                    } else if j < s0.deps.len() {
                        assert(s0.deps.contains(d[j]));
                    }
                }
            }
        }
        Ok(())
    }

    /// Removes the dependency `a` blocks `b` and records the change.
    fn apply_remove_dependency_exec(&mut self, a: NoteId, b: NoteId) -> (r: ShizenResult<()>)
        requires
            old(self).wf(),
            old(self)@.clock < usize::MAX,
        ensures
            final(self).wf(),
            outcome_is(r, old(self)@, final(self)@, apply_remove_dependency(old(self)@, a, b)),
    {
        let ghost s0 = self@;
        if self.find_note(a).is_none() {
            return Err(ShizenError::NoSuchNote(a));
        }
        if self.find_note(b).is_none() {
            return Err(ShizenError::NoSuchNote(b));
        }
        if !contains_edge(&self.dependencies, (a, b)) {
            return Err(ShizenError::NoSuchDependency(a, b));
        }
        self.dependencies = without_edge(&self.dependencies, (a, b));
        self.record(Action::RemoveDependency { blocker: a, blockee: b });
        proof {
            let f = not_edge((a, b));
            assert forall|e: (NoteId, NoteId)| #[trigger]
                self@.deps.contains(e) implies has_row(self@.notes, e.0) && has_row(
                self@.notes,
                e.1,
            ) by {
                lemma_keep_contains(s0.deps, f, e);
            }
            lemma_keep_no_dup(s0.deps, f);
        }
        Ok(())
    }

    /// Deletes the note `id` with its descendants and their dependencies, and
    /// records the note as it was.
    fn apply_delete_note_exec(&mut self, id: NoteId) -> (r: ShizenResult<()>)
        requires
            old(self).wf(),
            old(self)@.clock < usize::MAX,
        ensures
            final(self).wf(),
            outcome_is(r, old(self)@, final(self)@, apply_delete_note(old(self)@, id)),
    {
        let ghost s0 = self@;
        let i = match self.find_note(id) {
            None => {
                return Err(ShizenError::RusqliteError(DbError::QueryReturnedNoRows));
            },
            Some(i) => i,
        };
        let note = self.build_note(i);
        let rank = copy_opt_text(&self.notes[i].rank);
        let edges = self.parent_edge_list();
        let below = reachable_from(&edges, id);
        let ghost fr = |r: RowV| !in_subtree(s0, id, r.id);
        let ghost fe = |e: (NoteId, NoteId)| !in_subtree(s0, id, e.0) && !in_subtree(s0, id, e.1);
        let mut rows: Vec<NoteRow> = Vec::new();
        let mut k: usize = 0;
        while k < self.notes.len()
            invariant
                self@ == s0,
                k <= self@.notes.len(),
                forall|x: NoteId| #[trigger] below@.contains(x) <==> reachable(parent_edges(s0.notes), id, x),
                fr == (|r: RowV| !in_subtree(s0, id, r.id)),
                rows_view(rows@) == keep(s0.notes.subrange(0, k as int), fr),
            decreases self.notes.len() - k,
        {
            proof {
                assert(s0.notes.subrange(0, k + 1) =~= s0.notes.subrange(0, k as int).push(s0.notes[k as int]));
                lemma_keep_push(s0.notes.subrange(0, k as int), fr, s0.notes[k as int]);
            }
            let nid = self.notes[k].id;
            let keep_it = !(nid == id || contains_id(&below, nid));
            assert(keep_it == fr(s0.notes[k as int]));
            if keep_it {
                rows.push(self.notes[k].duplicate());
                assert(rows_view(rows@) =~= keep(s0.notes.subrange(0, k as int), fr).push(s0.notes[k as int]));
            }
            k = k + 1;
        }
        assert(s0.notes.subrange(0, s0.notes.len() as int) =~= s0.notes);
        let mut deps: Vec<(NoteId, NoteId)> = Vec::new();
        let mut k: usize = 0;
        while k < self.dependencies.len()
            invariant
                self@ == s0,
                k <= self@.deps.len(),
                forall|x: NoteId| #[trigger] below@.contains(x) <==> reachable(parent_edges(s0.notes), id, x),
                fe == (|e: (NoteId, NoteId)| !in_subtree(s0, id, e.0) && !in_subtree(s0, id, e.1)),
                deps@ == keep(s0.deps.subrange(0, k as int), fe),
            decreases self.dependencies.len() - k,
        {
            proof {
                assert(s0.deps.subrange(0, k + 1) =~= s0.deps.subrange(0, k as int).push(s0.deps[k as int]));
                lemma_keep_push(s0.deps.subrange(0, k as int), fe, s0.deps[k as int]);
            }
            let (a, b) = self.dependencies[k];
            let keep_it = !(a == id || contains_id(&below, a)) && !(b == id || contains_id(&below, b));
            assert(s0.deps[k as int] == (a, b));
            assert(keep_it == fe(s0.deps[k as int]));
            if keep_it {
                deps.push((a, b));
            }
            k = k + 1;
        }
        assert(s0.deps.subrange(0, s0.deps.len() as int) =~= s0.deps);
        self.notes = rows;
        self.dependencies = deps;
        proof {
            lemma_row_of(s0.notes, i as int);
        }
        self.record(Action::DeleteNote { note, rank });
        proof {
            let t = self@;
            lemma_keep_unique_ids(s0.notes, fr);
            // Every kept row's parent is kept: a parent inside the subtree
            // would put the row inside it too.
            assert forall|j: int|
                0 <= j < t.notes.len() && (#[trigger] t.notes[j]).parent is Some implies has_row(
                t.notes,
                t.notes[j].parent->0,
            ) by {
                let r = t.notes[j];
                assert(t.notes.contains(r));
                lemma_keep_contains(s0.notes, fr, r);
                let m = choose|m: int| 0 <= m < s0.notes.len() && s0.notes[m] == r;
                let p = r.parent->0;
                assert(s0.notes[m].parent is Some);
                lemma_parent_edges_contains(s0.notes, m);
                if in_subtree(s0, id, p) {
                    if p == id {
                        crate::graph::lemma_edge_reachable(parent_edges(s0.notes), id, r.id);
                    } else {
                        crate::graph::lemma_reachable_extend(parent_edges(s0.notes), id, p, r.id);
                    }
                    assert(false);
                }
                let q = choose|q: int| 0 <= q < s0.notes.len() && (#[trigger] s0.notes[q]).id == p;
                lemma_keep_has_row(s0.notes, fr, q);
            }
            assert forall|e: (NoteId, NoteId)| #[trigger]
                t.deps.contains(e) implies has_row(t.notes, e.0) && has_row(t.notes, e.1) by {
                lemma_keep_contains(s0.deps, fe, e);
                let q0 = choose|q: int| 0 <= q < s0.notes.len() && (#[trigger] s0.notes[q]).id == e.0;
                lemma_keep_has_row(s0.notes, fr, q0);
                let q1 = choose|q: int| 0 <= q < s0.notes.len() && (#[trigger] s0.notes[q]).id == e.1;
                lemma_keep_has_row(s0.notes, fr, q1);
            }
            lemma_keep_no_dup(s0.deps, fe);
        }
        Ok(())
    }

}

/// The outcome of a computation of a text, as the model states it.
pub open spec fn text_result(r: ShizenResult<String>) -> Result<Seq<char>, ErrorV> {
    match r {
        Ok(t) => Ok(t@),
        Err(e) => Err(e@),
    }
}

/// The error for a rank text that the `lexorank` crate cannot read (it has no
/// bucket separator).
fn unreadable_rank() -> (e: ShizenError)
    ensures
        e@ == ErrorV::LexorankParse,
{
    ShizenError::LexorankParseError(rank_parse_error("rank text has no bucket separator"))
}

/// The rank for a note placed after the note of rank `after` and before the
/// note of rank `before`.
fn rank_between_exec(after: &Option<String>, before: &Option<String>) -> (r: ShizenResult<String>)
    ensures
        text_result(r) == rank_between(opt_text(*after), opt_text(*before)),
        placeable(opt_text(*after), opt_text(*before)) ==> r is Ok && placed(
            opt_text(*after),
            opt_text(*before),
            r->Ok_0@,
        ),
        r is Ok && (*after is Some ==> rank_ok(opt_text(*after)->0)) && (*before is Some ==> rank_ok(
            opt_text(*before)->0,
        )) ==> placeable(opt_text(*after), opt_text(*before)),
{
    proof {
        match (opt_text(*after), opt_text(*before)) {
            (Some(a), _) => {
                if rank_ok(a) {
                    assert(a[1] == '|');
                    assert(a.contains('|'));
                }
            },
            _ => {},
        }
        match (opt_text(*after), opt_text(*before)) {
            (_, Some(b)) => {
                if rank_ok(b) {
                    assert(b[1] == '|');
                    assert(b.contains('|'));
                }
            },
            _ => {},
        }
    }
    match (after, before) {
        (None, None) => Err(ShizenError::InvalidRankAdjustment),
        (None, Some(b)) => {
            if !has_bar(b) {
                return Err(unreadable_rank());
            }
            match lexorank_prev(b.as_str()) {
                Ok(t) => {
                    proof {
                        if rank_ok(b@) {
                            lemma_same_bucket_order(t@, b@);
                        }
                    }
                    Ok(t)
                },
                Err(e) => Err(ShizenError::LexorankParseError(e)),
            }
        },
        (Some(a), None) => {
            if !has_bar(a) {
                return Err(unreadable_rank());
            }
            match lexorank_next(a.as_str()) {
                Ok(t) => {
                    proof {
                        if rank_ok(a@) {
                            lemma_same_bucket_order(a@, t@);
                        }
                    }
                    Ok(t)
                },
                Err(e) => Err(ShizenError::LexorankParseError(e)),
            }
        },
        (Some(a), Some(b)) => {
            if !has_bar(a) || !has_bar(b) {
                return Err(unreadable_rank());
            }
            proof {
                if rank_ok(a@) && rank_ok(b@) && a@ != b@ {
                    if rank_part(a@) == rank_part(b@) {
                        assert(a@.len() == b@.len());
                        assert forall|i: int| 0 <= i < a@.len() implies a@[i] == b@[i] by {
                            if i >= 2 {
                                assert(a@[i] == rank_part(a@)[i - 2]);
                                assert(b@[i] == rank_part(b@)[i - 2]);
                            }
                        }
                        assert(a@ =~= b@);
                    }
                }
            }
            match lexorank_between(a.as_str(), b.as_str()) {
                Ok(Some(t)) => {
                    proof {
                        if rank_ok(a@) && rank_ok(b@) && a@ != b@ {
                            let (pa, pb, pm) = (rank_part(a@), rank_part(b@), rank_part(t@));
                            lemma_same_bucket_order(a@, t@);
                            lemma_same_bucket_order(t@, b@);
                            lemma_same_bucket_order(a@, b@);
                            if text_lt(a@, b@) && text_lt(pb, pm) && text_lt(pm, pa) {
                                lemma_text_lt_transitive(pb, pm, pa);
                                lemma_text_lt_transitive(pa, pb, pa);
                                lemma_text_lt_irreflexive(pa);
                            }
                        }
                    }
                    Ok(t)
                },
                Ok(None) => Err(ShizenError::NoRankBetween),
                Err(e) => Err(ShizenError::LexorankParseError(e)),
            }
        },
    }
}

/// The action creates a note that does not exist yet, under no parent or an
/// existing one.
pub open spec fn creatable(rows: Seq<RowV>, a: ActionV) -> bool {
    match a {
        ActionV::CreateNote { id, parent, .. } => !has_row(rows, id) && (parent is None || has_row(
            rows,
            parent->0,
        )),
        _ => false,
    }
}

/// The rank of the note `o` names, if it names one.
pub open spec fn neighbour_rank(rows: Seq<RowV>, o: Option<NoteId>) -> Option<Seq<char>> {
    match o {
        Some(a) => row_of(rows, a).rank,
        None => None,
    }
}

/// The note `id` can be moved between `after` and `before`: it and each given
/// neighbour exist, at least one neighbour is given, and two given neighbours
/// have different ranks.
pub open spec fn movable(rows: Seq<RowV>, id: NoteId, after: Option<NoteId>, before: Option<NoteId>) -> bool {
    &&& has_row(rows, id)
    &&& after is Some || before is Some
    &&& after is Some ==> has_row(rows, after->0)
    &&& before is Some ==> has_row(rows, before->0)
    &&& after is Some && before is Some ==> neighbour_rank(rows, after) != neighbour_rank(rows, before)
}

/// The neighbour ranks of a move that the store can always place a note
/// between: at least one of them, each a readable rank of bucket `0`, and
/// two different ones where both are given.
pub open spec fn placeable(after: Option<Seq<char>>, before: Option<Seq<char>>) -> bool {
    &&& after is Some || before is Some
    &&& after is Some ==> rank_ok(after->0)
    &&& before is Some ==> rank_ok(before->0)
    &&& after is Some && before is Some ==> after != before
}

/// The rank `m` is a readable rank of bucket `0` that comes after `after`
/// and before `before` (each where given; both where `after` comes before
/// `before`).
pub open spec fn placed(after: Option<Seq<char>>, before: Option<Seq<char>>, m: Seq<char>) -> bool {
    &&& rank_ok(m)
    &&& after is Some && (before is None || rank_lt(after, before)) ==> rank_lt(after, Some(m))
    &&& before is Some && (after is None || rank_lt(after, before)) ==> rank_lt(Some(m), before)
}

impl RusqliteStorage {
    /// The greatest rank of the notes.
    fn max_rank_exec(&self) -> (m: Option<String>)
        ensures
            opt_text(m) == max_rank(self@.notes),
    {
        let mut m: Option<String> = None;
        let mut k: usize = 0;
        while k < self.notes.len()
            invariant
                k <= self@.notes.len(),
                opt_text(m) == max_rank(self@.notes.subrange(0, k as int)),
            decreases self.notes.len() - k,
        {
            assert(self@.notes.subrange(0, k + 1).drop_last() =~= self@.notes.subrange(0, k as int));
            if rank_less(&m, &self.notes[k].rank) {
                m = copy_opt_text(&self.notes[k].rank);
            }
            k = k + 1;
        }
        assert(self@.notes.subrange(0, self@.notes.len() as int) =~= self@.notes);
        m
    }

    /// The rank of a new note.
    fn new_rank_exec(&self) -> (r: ShizenResult<String>)
        ensures
            text_result(r) == new_rank(self@),
            ranks_ok(self@.notes) ==> r is Ok && rank_ok(r->Ok_0@) && forall|i: int|
                0 <= i < self@.notes.len() ==> rank_lt(
                    (#[trigger] self@.notes[i]).rank,
                    Some(r->Ok_0@),
                ),
    {
        if self.notes.len() == 0 {
            proof {
                reveal_strlit("a");
                assert(lexorank_rank_part("a"@));
            }
            match lexorank_new(0, "a") {
                Ok(t) => {
                    assert(t@ =~= seq!['0', '|', 'a']);
                    assert(rank_part(t@) =~= seq!['a']);
                    Ok(t)
                },
                Err(e) => Err(ShizenError::LexorankParseError(e)),
            }
        } else {
            let ghost rows = self@.notes;
            proof {
                if ranks_ok(rows) {
                    lemma_max_rank(rows);
                    let k = choose|k: int| 0 <= k < rows.len() && (#[trigger] rows[k]).rank == max_rank(rows);
                    let mt = max_rank(rows)->0;
                    assert(rank_ok(rows[k].rank->0));
                    assert(mt[1] == '|');
                    assert(mt.contains('|'));
                }
            }
            match self.max_rank_exec() {
                None => Err(ShizenError::RusqliteError(DbError::NullValue)),
                Some(m) => {
                    if !has_bar(&m) {
                        return Err(unreadable_rank());
                    }
                    match lexorank_next(m.as_str()) {
                        Ok(t) => {
                            proof {
                                if ranks_ok(rows) {
                                    lemma_same_bucket_order(m@, t@);
                                    assert forall|i: int| 0 <= i < rows.len() implies rank_lt(
                                        (#[trigger] rows[i]).rank,
                                        Some(t@),
                                    ) by {
                                        if rows[i].rank != Some(m@) {
                                            lemma_text_lt_transitive(rows[i].rank->0, m@, t@);
                                        }
                                    }
                                }
                            }
                            Ok(t)
                        },
                        Err(e) => Err(ShizenError::LexorankParseError(e)),
                    }
                },
            }
        }
    }

    /// Creates the note `id` and records it.
    fn apply_create_exec(
        &mut self,
        id: NoteId,
        title: String,
        description: Option<String>,
        parent: Option<NoteId>,
    ) -> (r: ShizenResult<Note>)
        requires
            old(self).wf(),
            old(self)@.clock < usize::MAX,
        ensures
            final(self).wf(),
            outcome_is(
                r,
                old(self)@,
                final(self)@,
                create_note(old(self)@, id, title@, opt_text(description), parent),
            ),
            r is Ok ==> r->Ok_0@ == created_note(id, title@, opt_text(description), parent),
            ranks_ok(old(self)@.notes) ==> ranks_ok(final(self)@.notes),
            ranks_ok(old(self)@.notes) && (parent is None || has_row(old(self)@.notes, parent->0))
                ==> r is Ok || (has_row(old(self)@.notes, id) && r->Err_0@ == ErrorV::Db(
                DbError::UniqueConstraintFailed,
            )),
            r is Ok && ranks_ok(old(self)@.notes) ==> forall|i: int|
                0 <= i < old(self)@.notes.len() ==> rank_lt(
                    (#[trigger] old(self)@.notes[i]).rank,
                    row_of(final(self)@.notes, id).rank,
                ),
    {
        let ghost s0 = self@;
        match parent {
            Some(p) => {
                if self.find_note(p).is_none() {
                    return Err(ShizenError::NoSuchNote(p));
                }
            },
            None => {},
        }
        let rank = match self.new_rank_exec() {
            Ok(t) => t,
            Err(e) => {
                return Err(e);
            },
        };
        if self.find_note(id).is_some() {
            return Err(ShizenError::RusqliteError(DbError::UniqueConstraintFailed));
        }
        let row = NoteRow {
            id,
            title: title.clone(),
            description: copy_opt_text(&description),
            completed: false,
            parent,
            rank: Some(rank),
        };
        self.notes.push(row);
        let note = Note {
            id,
            title: title.clone(),
            description: copy_opt_text(&description),
            completed: false,
            parent_id: parent,
            children_ids: Vec::new(),
            notes_this_blocks: Vec::new(),
            notes_blocking_this: Vec::new(),
        };
        self.record(Action::CreateNote { id, title, description, parent });
        proof {
            let t = self@;
            assert(t.notes =~= s0.notes.push(row@));
            assert(unique_ids(t.notes)) by {
                assert forall|i: int, j: int|
                    0 <= i < t.notes.len() && 0 <= j < t.notes.len() && i != j implies #[trigger] t.notes[i].id
                    != #[trigger] t.notes[j].id by {
                    if i < s0.notes.len() && j < s0.notes.len() {
                    } else if i < s0.notes.len() {
                        assert(s0.notes[i].id != id);
                    } else {
                        assert(s0.notes[j].id != id);
                    }
                }
            }
            assert forall|x: NoteId| has_row(s0.notes, x) implies has_row(t.notes, x) by {
                let i = choose|i: int| 0 <= i < s0.notes.len() && (#[trigger] s0.notes[i]).id == x;
                assert(t.notes[i].id == x);
            }
            assert forall|j: int|
                0 <= j < t.notes.len() && (#[trigger] t.notes[j]).parent is Some implies has_row(
                t.notes,
                t.notes[j].parent->0,
            ) by {
                if j < s0.notes.len() {
                    assert(s0.notes[j].parent is Some);
                }
            }
            assert(t == record(
                StoreV { notes: s0.notes.push(row@), ..s0 },
                ActionV::CreateNote { id, title: title@, description: opt_text(description), parent },
            ));
            assert(note@.children_ids =~= Seq::<NoteId>::empty());
            assert(note@.notes_this_blocks =~= Seq::<NoteId>::empty());
            assert(note@.notes_blocking_this =~= Seq::<NoteId>::empty());
            lemma_row_of(t.notes, s0.notes.len() as int);
            if ranks_ok(s0.notes) {
                assert forall|i: int| 0 <= i < t.notes.len() implies (#[trigger] t.notes[i]).rank
                    is Some && rank_ok(t.notes[i].rank->0) by {
                    if i < s0.notes.len() {
                        assert(t.notes[i] == s0.notes[i]);
                    }
                }
            }
        }
        Ok(note)
    }

    /// The rank of the note `id`.
    fn rank_text_exec(&self, id: NoteId) -> (r: ShizenResult<String>)
        requires
            self.wf(),
        ensures
            text_result(r) == rank_text(self@, id),
    {
        match self.find_note(id) {
            None => Err(ShizenError::RusqliteError(DbError::QueryReturnedNoRows)),
            Some(i) => match &self.notes[i].rank {
                None => Err(ShizenError::RusqliteError(DbError::NullValue)),
                Some(t) => Ok(t.clone()),
            },
        }
    }

    /// The rank of the note `o` names, if it names one.
    fn opt_rank_text_exec(&self, o: Option<NoteId>) -> (r: ShizenResult<Option<String>>)
        requires
            self.wf(),
        ensures
            match r {
                Ok(t) => opt_rank_text(self@, o) == Ok::<Option<Seq<char>>, ErrorV>(opt_text(t)),
                Err(e) => opt_rank_text(self@, o) == Err::<Option<Seq<char>>, ErrorV>(e@),
            },
    {
        match o {
            None => Ok(None),
            Some(id) => match self.rank_text_exec(id) {
                Ok(t) => Ok(Some(t)),
                Err(e) => Err(e),
            },
        }
    }

    /// Gives the note `id` a rank between the notes `after` and `before` and
    /// records the change with the old rank.
    fn apply_reorder_exec(&mut self, id: NoteId, after: Option<NoteId>, before: Option<NoteId>) -> (r:
        ShizenResult<()>)
        requires
            old(self).wf(),
            old(self)@.clock < usize::MAX,
        ensures
            final(self).wf(),
            outcome_is(r, old(self)@, final(self)@, apply_reorder(old(self)@, id, after, before)),
            ranks_ok(old(self)@.notes) ==> ranks_ok(final(self)@.notes),
            ranks_ok(old(self)@.notes) && movable(old(self)@.notes, id, after, before) ==> r is Ok,
            r is Ok && ranks_ok(old(self)@.notes) ==> row_of(final(self)@.notes, id).rank is Some
                && placed(
                neighbour_rank(old(self)@.notes, after),
                neighbour_rank(old(self)@.notes, before),
                row_of(final(self)@.notes, id).rank->0,
            ),
    {
        let ghost s0 = self@;
        let ar = match self.opt_rank_text_exec(after) {
            Ok(t) => t,
            Err(e) => {
                return Err(e);
            },
        };
        let br = match self.opt_rank_text_exec(before) {
            Ok(t) => t,
            Err(e) => {
                return Err(e);
            },
        };
        let nr = match rank_between_exec(&ar, &br) {
            Ok(t) => t,
            Err(e) => {
                return Err(e);
            },
        };
        let old_rank = match self.rank_text_exec(id) {
            Ok(t) => t,
            Err(e) => {
                return Err(e);
            },
        };
        let idx = self.find_note(id);
        match idx {
            Some(i) => {
                self.notes[i].rank = Some(nr);
            },
            None => {},
        }
        assert(self@.notes =~= with_rank(s0.notes, id, Some(nr@)));
        proof {
            lemma_same_shape(s0, self@);
        }
        self.record(Action::ReorderNote { id, before, after, old_rank });
        proof {
            lemma_same_shape(s0, self@);
            let t = self@;
            if let Some(i) = idx {
                lemma_row_of(t.notes, i as int);
                if ranks_ok(s0.notes) {
                    assert forall|j: int| 0 <= j < t.notes.len() implies (#[trigger] t.notes[j]).rank
                        is Some && rank_ok(t.notes[j].rank->0) by {
                        assert(s0.notes[j].rank is Some);
                    }
                }
            }
        }
        Ok(())
    }

    /// The indices of the rows, ordered by rank.
    fn rank_order_exec(&self) -> (o: Vec<usize>)
        ensures
            o@ == rank_order(self@),
            forall|j: int| 0 <= j < o@.len() ==> o@[j] < self@.notes.len(),
    {
        let ghost rows = self@.notes;
        let mut o: Vec<usize> = Vec::new();
        let mut k: usize = 0;
        while k < self.notes.len()
            invariant
                rows == self@.notes,
                k <= rows.len(),
                o@ == sort_idx(rows, k as nat),
                forall|j: int| 0 <= j < o@.len() ==> o@[j] < k,
            decreases self.notes.len() - k,
        {
            let mut i: usize = 0;
            while i < o.len() && !rank_less(&self.notes[k].rank, &self.notes[o[i]].rank)
                invariant
                    rows == self@.notes,
                    k < rows.len(),
                    i <= o@.len(),
                    forall|j: int| 0 <= j < o@.len() ==> o@[j] < k,
                    insert_pos(rows, o@, k, 0) == insert_pos(rows, o@, k, i as int),
                decreases o.len() - i,
            {
                i = i + 1;
            }
            let ghost before = o@;
            o.insert(i, k);
            proof {
                assert(insert_pos(rows, before, k, i as int) == i as int);
                assert(sort_idx(rows, (k + 1) as nat) == before.insert(insert_pos(rows, before, k, 0), k));
                assert forall|j: int| 0 <= j < o@.len() implies o@[j] < k + 1 by {
                    if j < i {
                        assert(o@[j] == before[j]);
                    } else if j > i {
                        assert(o@[j] == before[j - 1]);
                    }
                }
            }
            k = k + 1;
        }
        o
    }

    /// The notes whose row index is selected by `mask`, in rank order.
    fn notes_in_order(&self, mask: &Vec<bool>) -> (r: Vec<Note>)
        requires
            mask@.len() == self@.notes.len(),
        ensures
            notes_view(r@) == keep(rank_order(self@), |i: usize| mask@[i as int]).map_values(
                |i: usize| note_view(self@, self@.notes[i as int]),
            ),
    {
        let ghost g = |i: usize| mask@[i as int];
        let ghost h = |i: usize| note_view(self@, self@.notes[i as int]);
        let order = self.rank_order_exec();
        let mut r: Vec<Note> = Vec::new();
        let mut k: usize = 0;
        while k < order.len()
            invariant
                g == (|i: usize| mask@[i as int]),
                h == (|i: usize| note_view(self@, self@.notes[i as int])),
                mask@.len() == self@.notes.len(),
                k <= order@.len(),
                forall|j: int| 0 <= j < order@.len() ==> order@[j] < self@.notes.len(),
                notes_view(r@) == keep(order@.subrange(0, k as int), g).map_values(h),
            decreases order.len() - k,
        {
            let ix = order[k];
            proof {
                assert(order@.subrange(0, k + 1) =~= order@.subrange(0, k as int).push(ix));
                lemma_keep_push(order@.subrange(0, k as int), g, ix);
            }
            if mask[ix] {
                let n = self.build_note(ix);
                let ghost before = r@;
                r.push(n);
                assert(notes_view(r@) =~= notes_view(before).push(n@));
                assert(keep(order@.subrange(0, k as int), g).push(ix).map_values(h) =~= keep(
                    order@.subrange(0, k as int),
                    g,
                ).map_values(h).push(h(ix)));
            }
            k = k + 1;
        }
        assert(order@.subrange(0, order@.len() as int) =~= order@);
        r
    }

    /// Whether an incomplete note blocks the note `id`.
    fn is_blocked_exec(&self, id: NoteId) -> (b: bool)
        requires
            self.wf(),
        ensures
            b == is_blocked(self@, id),
    {
        let mut k: usize = 0;
        while k < self.dependencies.len()
            invariant
                self.wf(),
                k <= self@.deps.len(),
                forall|j: int|
                    0 <= j < k && (#[trigger] self@.deps[j]).1 == id ==> !(has_row(self@.notes, self@.deps[j].0)
                        && !row_of(self@.notes, self@.deps[j].0).completed),
            decreases self.dependencies.len() - k,
        {
            let (a, b) = self.dependencies[k];
            if b == id {
                match self.find_note(a) {
                    Some(i) => {
                        if !self.notes[i].completed {
                            assert(self@.deps.contains((a, id)));
                            return true;
                        }
                    },
                    None => {},
                }
            }
            k = k + 1;
        }
        assert forall|x: NoteId| #[trigger]
            self@.deps.contains((x, id)) implies !(has_row(self@.notes, x)
            && !row_of(self@.notes, x).completed) by {
            let j = choose|j: int| 0 <= j < self@.deps.len() && self@.deps[j] == (x, id);
            assert(self@.deps[j].1 == id);
        }
        false
    }

}

impl RusqliteStorage {
    /// The notes whose row index satisfies `sel`, in rank order.
    fn select_notes(&self, mask: &Vec<bool>, Ghost(sel): Ghost<spec_fn(usize) -> bool>) -> (r: Vec<
        Note,
    >)
        requires
            mask@.len() == self@.notes.len(),
            forall|j: int| 0 <= j < mask@.len() ==> mask@[j] == sel(j as usize),
        ensures
            notes_view(r@) == notes_where(self@, sel),
    {
        let r = self.notes_in_order(mask);
        proof {
            lemma_sort_idx_bound(self@.notes, self@.notes.len());
            let o = rank_order(self@);
            assert forall|j: int| 0 <= j < o.len() implies (|i: usize| mask@[i as int])(#[trigger] o[j])
                == sel(o[j]) by {
                assert(o[j] < mask@.len());
            }
            lemma_keep_ext(o, |i: usize| mask@[i as int], sel);
        }
        r
    }

    // ------------------------------------------------------------ peers

    /// The index of the peer `id`, if this store knows it.
    fn find_peer(&self, id: PeerId) -> (r: Option<usize>)
        requires
            self.wf(),
        ensures
            match r {
                Some(i) => i < self@.peers.len() && self@.peers[i as int].peer_id == id && has_peer(
                    self@.peers,
                    id,
                ) && peer_of(self@.peers, id) == self@.peers[i as int],
                None => !has_peer(self@.peers, id),
            },
    {
        let mut i: usize = 0;
        while i < self.peers.len()
            invariant
                self.wf(),
                i <= self@.peers.len(),
                forall|j: int| 0 <= j < i ==> self@.peers[j].peer_id != id,
            decreases self.peers.len() - i,
        {
            if self.peers[i].peer_id == id {
                proof {
                    let ps = self@.peers;
                    assert(ps[i as int].peer_id == id);
                    assert(has_peer(ps, id));
                    let j = choose|j: int| 0 <= j < ps.len() && (#[trigger] ps[j]).peer_id == id;
                    assert(ps[j].peer_id == ps[i as int].peer_id);
                }
                return Some(i);
            }
            i = i + 1;
        }
        None
    }

    fn push_peer(&mut self, p: PeerInfo)
        requires
            old(self).wf(),
            !has_peer(old(self)@.peers, p.peer_id),
        ensures
            final(self).wf(),
            final(self)@ == (StoreV { peers: old(self)@.peers.push(p@), ..old(self)@ }),
    {
        let ghost s0 = self@;
        self.peers.push(p);
        proof {
            let ps = self@.peers;
            assert(ps =~= s0.peers.push(p@));
            assert forall|i: int, j: int|
                0 <= i < ps.len() && 0 <= j < ps.len() && i != j implies #[trigger] ps[i].peer_id
                != #[trigger] ps[j].peer_id by {
                if i < s0.peers.len() && j < s0.peers.len() {
                } else if i < s0.peers.len() {
                    assert(s0.peers[i].peer_id != p.peer_id);
                } else {
                    assert(s0.peers[j].peer_id != p.peer_id);
                }
            }
        }
    }

    /// Registers the peer that a handshake identified, at clock 0. This store
    /// cannot be its own peer, and a peer is added once.
    pub fn add_known_peer(&mut self, peer_id: PeerId, addr: &str) -> (r: ShizenResult<PeerId>)
        requires
            old(self).wf(),
        ensures
            final(self).wf(),
            outcome_is(r, old(self)@, final(self)@, add_known_peer_op(old(self)@, peer_id, addr@)),
            r is Ok ==> r->Ok_0 == peer_id,
    {
        if peer_id == self.peer_id {
            return Err(ShizenError::CannotBePeerOfSelf);
        }
        if self.find_peer(peer_id).is_some() {
            return Err(ShizenError::PeerAlreadyExists(peer_id));
        }
        self.push_peer(PeerInfo { peer_id, clock: 0, addr: addr.to_owned() });
        Ok(peer_id)
    }

}

proof fn lemma_keep_peers_unique(s: Seq<PeerInfoV>, f: spec_fn(PeerInfoV) -> bool, i: int, j: int)
    requires
        unique_peers(s),
        0 <= i < keep(s, f).len(),
        0 <= j < keep(s, f).len(),
        i != j,
    ensures
        keep(s, f)[i].peer_id != keep(s, f)[j].peer_id,
    decreases s.len(),
{
    let d = s.drop_last();
    let k = keep(d, f);
    assert(unique_peers(d)) by {
        assert forall|a: int, b: int| 0 <= a < d.len() && 0 <= b < d.len() && a != b implies #[trigger] d[a].peer_id != #[trigger] d[b].peer_id by {
            assert(s[a].peer_id != s[b].peer_id);
        }
    }
    if f(s.last()) && (i == k.len() || j == k.len()) {
        let o = if i == k.len() { j } else { i };
        assert(k.contains(k[o]));
        lemma_keep_contains(d, f, k[o]);
        let m = choose|m: int| 0 <= m < d.len() && d[m] == k[o];
        assert(s[m].peer_id != s[s.len() - 1].peer_id);
    } else {
        lemma_keep_peers_unique(d, f, i, j);
    }
}

/// The index of the row of `id` in `rows`, if there is one.
fn find_row(rows: &Vec<NoteRow>, id: NoteId) -> (r: Option<usize>)
    ensures
        match r {
            Some(i) => i < rows@.len() && rows_view(rows@)[i as int].id == id && has_row(
                rows_view(rows@),
                id,
            ),
            None => !has_row(rows_view(rows@), id),
        },
{
    let mut i: usize = 0;
    while i < rows.len()
        invariant
            i <= rows@.len(),
            forall|j: int| 0 <= j < i ==> rows_view(rows@)[j].id != id,
        decreases rows.len() - i,
    {
        if rows[i].id == id {
            assert(rows_view(rows@)[i as int].id == id);
            return Some(i);
        }
        i = i + 1;
    }
    None
}

/// A copy of a list of edges.
fn copy_edges(v: &Vec<(NoteId, NoteId)>) -> (r: Vec<(NoteId, NoteId)>)
    ensures
        r@ == v@,
{
    let mut r: Vec<(NoteId, NoteId)> = Vec::new();
    let mut i: usize = 0;
    while i < v.len()
        invariant
            i <= v.len(),
            r@ == v@.subrange(0, i as int),
        decreases v.len() - i,
    {
        r.push(v[i]);
        i = i + 1;
        assert(r@ =~= v@.subrange(0, i as int));
    }
    assert(r@ =~= v@);
    r
}

impl RusqliteStorage {
    /// A copy of the rows.
    fn rows_copy(&self) -> (r: Vec<NoteRow>)
        ensures
            rows_view(r@) == self@.notes,
    {
        let mut r: Vec<NoteRow> = Vec::new();
        let mut i: usize = 0;
        while i < self.notes.len()
            invariant
                i <= self@.notes.len(),
                rows_view(r@) == self@.notes.subrange(0, i as int),
            decreases self.notes.len() - i,
        {
            let ghost before = r@;
            let row = self.notes[i].duplicate();
            r.push(row);
            assert(rows_view(r@) =~= rows_view(before).push(row@));
            assert(self@.notes.subrange(0, i + 1) =~= self@.notes.subrange(0, i as int).push(row@));
            i = i + 1;
        }
        assert(self@.notes.subrange(0, self@.notes.len() as int) =~= self@.notes);
        r
    }

    fn put_completed(&mut self, id: NoteId, c: bool)
        requires
            old(self).wf(),
        ensures
            final(self).wf(),
            final(self)@ == (StoreV { notes: with_completed(old(self)@.notes, id, c), ..old(self)@ }),
    {
        let ghost s0 = self@;
        match self.find_note(id) {
            Some(i) => {
                self.notes[i].completed = c;
            },
            None => {},
        }
        assert(self@.notes =~= with_completed(s0.notes, id, c));
        proof {
            lemma_same_shape(s0, self@);
        }
    }

    fn put_title(&mut self, id: NoteId, t: String)
        requires
            old(self).wf(),
        ensures
            final(self).wf(),
            final(self)@ == (StoreV { notes: with_title(old(self)@.notes, id, t@), ..old(self)@ }),
    {
        let ghost s0 = self@;
        match self.find_note(id) {
            Some(i) => {
                self.notes[i].title = t;
            },
            None => {},
        }
        assert(self@.notes =~= with_title(s0.notes, id, t@));
        proof {
            lemma_same_shape(s0, self@);
        }
    }

    fn put_description(&mut self, id: NoteId, d: Option<String>)
        requires
            old(self).wf(),
        ensures
            final(self).wf(),
            final(self)@ == (StoreV {
                notes: with_description(old(self)@.notes, id, opt_text(d)),
                ..old(self)@
            }),
    {
        let ghost s0 = self@;
        let ghost dv = opt_text(d);
        match self.find_note(id) {
            Some(i) => {
                self.notes[i].description = d;
            },
            None => {},
        }
        assert(self@.notes =~= with_description(s0.notes, id, dv));
        proof {
            lemma_same_shape(s0, self@);
        }
    }

    fn put_rank(&mut self, id: NoteId, k: Option<String>)
        requires
            old(self).wf(),
        ensures
            final(self).wf(),
            final(self)@ == (StoreV { notes: with_rank(old(self)@.notes, id, opt_text(k)), ..old(self)@ }),
    {
        let ghost s0 = self@;
        let ghost kv = opt_text(k);
        match self.find_note(id) {
            Some(i) => {
                self.notes[i].rank = k;
            },
            None => {},
        }
        assert(self@.notes =~= with_rank(s0.notes, id, kv));
        proof {
            lemma_same_shape(s0, self@);
        }
    }

    fn put_parent(&mut self, id: NoteId, p: Option<NoteId>)
        requires
            old(self).wf(),
            has_row(old(self)@.notes, id) && p is Some ==> has_row(old(self)@.notes, p->0),
        ensures
            final(self).wf(),
            final(self)@ == (StoreV { notes: with_parent(old(self)@.notes, id, p), ..old(self)@ }),
    {
        let ghost s0 = self@;
        match self.find_note(id) {
            Some(i) => {
                self.notes[i].parent = p;
                assert(self@.notes =~= with_parent(s0.notes, id, p));
                proof {
                    lemma_same_ids(s0.notes, self@.notes);
                    assert forall|j: int|
                        0 <= j < self@.notes.len() && (#[trigger] self@.notes[j]).parent is Some implies has_row(
                        self@.notes,
                        self@.notes[j].parent->0,
                    ) by {
                        if j != i {
                            assert(s0.notes[j].parent is Some);
                        }
                    }
                }
            },
            None => {
                assert(self@.notes =~= with_parent(s0.notes, id, p));
            },
        }
    }

    /// Removes the note `id`, the dependencies that name it and the parent
    /// link of its children.
    fn remove_note_exec(&mut self, id: NoteId)
        requires
            old(self).wf(),
        ensures
            final(self).wf(),
            final(self)@ == remove_note(old(self)@, id),
    {
        let ghost s0 = self@;
        let ghost fr = |r: RowV| r.id != id;
        let ghost fe = avoids(id);
        let mut rows: Vec<NoteRow> = Vec::new();
        let mut k: usize = 0;
        while k < self.notes.len()
            invariant
                self@ == s0,
                k <= s0.notes.len(),
                fr == (|r: RowV| r.id != id),
                rows_view(rows@) == orphan(keep(s0.notes.subrange(0, k as int), fr), id),
            decreases self.notes.len() - k,
        {
            proof {
                assert(s0.notes.subrange(0, k + 1) =~= s0.notes.subrange(0, k as int).push(s0.notes[k as int]));
                lemma_keep_push(s0.notes.subrange(0, k as int), fr, s0.notes[k as int]);
            }
            if self.notes[k].id != id {
                let mut row = self.notes[k].duplicate();
                if row.parent == Some(id) {
                    row.parent = None;
                }
                let ghost before = rows@;
                rows.push(row);
                assert(rows_view(rows@) =~= rows_view(before).push(row@));
                assert(orphan(keep(s0.notes.subrange(0, k as int), fr).push(s0.notes[k as int]), id)
                    =~= orphan(keep(s0.notes.subrange(0, k as int), fr), id).push(row@));
            }
            k = k + 1;
        }
        assert(s0.notes.subrange(0, s0.notes.len() as int) =~= s0.notes);
        let mut deps: Vec<(NoteId, NoteId)> = Vec::new();
        let mut k: usize = 0;
        while k < self.dependencies.len()
            invariant
                self@ == s0,
                k <= s0.deps.len(),
                fe == avoids(id),
                deps@ == keep(s0.deps.subrange(0, k as int), fe),
            decreases self.dependencies.len() - k,
        {
            proof {
                assert(s0.deps.subrange(0, k + 1) =~= s0.deps.subrange(0, k as int).push(s0.deps[k as int]));
                lemma_keep_push(s0.deps.subrange(0, k as int), fe, s0.deps[k as int]);
            }
            let (a, b) = self.dependencies[k];
            assert(s0.deps[k as int] == (a, b));
            if a != id && b != id {
                deps.push((a, b));
            }
            k = k + 1;
        }
        assert(s0.deps.subrange(0, s0.deps.len() as int) =~= s0.deps);
        self.notes = rows;
        self.dependencies = deps;
        proof {
            let t = self@;
            let kept = keep(s0.notes, fr);
            lemma_keep_unique_ids(s0.notes, fr);
            assert(same_ids(kept, t.notes));
            lemma_same_ids(kept, t.notes);
            assert forall|j: int|
                0 <= j < t.notes.len() && (#[trigger] t.notes[j]).parent is Some implies has_row(
                t.notes,
                t.notes[j].parent->0,
            ) by {
                let r = kept[j];
                assert(kept.contains(r));
                lemma_keep_contains(s0.notes, fr, r);
                let m = choose|m: int| 0 <= m < s0.notes.len() && s0.notes[m] == r;
                assert(s0.notes[m].parent is Some);
                let p = r.parent->0;
                assert(p != id);
                let q = choose|q: int| 0 <= q < s0.notes.len() && (#[trigger] s0.notes[q]).id == p;
                lemma_keep_has_row(s0.notes, fr, q);
            }
            assert forall|e: (NoteId, NoteId)| #[trigger]
                t.deps.contains(e) implies has_row(t.notes, e.0) && has_row(t.notes, e.1) by {
                lemma_keep_contains(s0.deps, fe, e);
                let q0 = choose|q: int| 0 <= q < s0.notes.len() && (#[trigger] s0.notes[q]).id == e.0;
                lemma_keep_has_row(s0.notes, fr, q0);
                let q1 = choose|q: int| 0 <= q < s0.notes.len() && (#[trigger] s0.notes[q]).id == e.1;
                lemma_keep_has_row(s0.notes, fr, q1);
            }
            lemma_keep_no_dup(s0.deps, fe);
            assert(t.notes == orphan(keep(s0.notes, fr), id));
            assert(t.deps == keep(s0.deps, fe));
            assert(t.notes == remove_note(s0, id).notes);
            assert(t.deps == remove_note(s0, id).deps);
        }
    }

    /// Adds the dependency edge `e`, checking that both notes exist and the
    /// edge is new.
    fn insert_dep_exec(&mut self, e: (NoteId, NoteId)) -> (r: ShizenResult<()>)
        requires
            old(self).wf(),
        ensures
            final(self).wf(),
            outcome_is(r, old(self)@, final(self)@, insert_dep(old(self)@, e)),
    {
        let ghost s0 = self@;
        if self.find_note(e.0).is_none() || self.find_note(e.1).is_none() {
            return Err(ShizenError::RusqliteError(DbError::ForeignKeyConstraintFailed));
        }
        if contains_edge(&self.dependencies, e) {
            return Err(ShizenError::RusqliteError(DbError::UniqueConstraintFailed));
        }
        self.dependencies.push(e);
        proof {
            assert forall|x: (NoteId, NoteId)| #[trigger]
                self@.deps.contains(x) implies has_row(self@.notes, x.0) && has_row(
                self@.notes,
                x.1,
            ) by {
                lemma_push_contains(s0.deps, e, x);
            }
            let d = self@.deps;
            assert forall|i: int, j: int|
                0 <= i < d.len() && 0 <= j < d.len() && i != j implies d[i] != d[j] by {
                if i < s0.deps.len() && j < s0.deps.len() {
                } else if i < s0.deps.len() {
                    assert(s0.deps.contains(d[i]));
                } else if j < s0.deps.len() {
                    assert(s0.deps.contains(d[j]));
                }
            }
        }
        Ok(())
    }
}

/// Rows whose ids are unique and whose parents exist.
pub open spec fn rows_ok(rows: Seq<RowV>) -> bool {
    &&& unique_ids(rows)
    &&& forall|i: int|
        0 <= i < rows.len() && (#[trigger] rows[i]).parent is Some ==> has_row(rows, rows[i].parent->0)
}

/// Edges that are duplicate-free and name existing rows.
pub open spec fn edges_ok(rows: Seq<RowV>, deps: Seq<(NoteId, NoteId)>) -> bool {
    &&& deps.no_duplicates()
    &&& forall|e: (NoteId, NoteId)| #[trigger]
        deps.contains(e) ==> has_row(rows, e.0) && has_row(rows, e.1)
}

/// Adds the edges `es` one after the other to `deps`, as `insert_deps` does
/// from the store `s0` whose rows are `rows`.
fn insert_edges(
    rows: &Vec<NoteRow>,
    deps: &mut Vec<(NoteId, NoteId)>,
    es: &Vec<(NoteId, NoteId)>,
    Ghost(s0): Ghost<StoreV>,
) -> (r: ShizenResult<()>)
    requires
        s0.notes == rows_view(rows@),
        s0.deps == old(deps)@,
        edges_ok(s0.notes, s0.deps),
    ensures
        match r {
            Ok(_) => insert_deps(s0, es@) == Ok::<StoreV, ErrorV>(StoreV { deps: final(deps)@, ..s0 })
                && edges_ok(s0.notes, final(deps)@),
            Err(e) => insert_deps(s0, es@) == Err::<StoreV, ErrorV>(e@),
        },
{
    let mut k: usize = 0;
    assert(es@.subrange(0, 0) =~= Seq::<(NoteId, NoteId)>::empty());
    while k < es.len()
        invariant
            k <= es@.len(),
            s0.notes == rows_view(rows@),
            insert_deps(s0, es@.subrange(0, k as int)) == Ok::<StoreV, ErrorV>(StoreV { deps: deps@, ..s0 }),
            edges_ok(s0.notes, deps@),
        decreases es.len() - k,
    {
        let e = es[k];
        let ghost cur = StoreV { deps: deps@, ..s0 };
        proof {
            assert(es@.subrange(0, k + 1).drop_last() =~= es@.subrange(0, k as int));
            assert(es@.subrange(0, k + 1).last() == e);
        }
        if find_row(rows, e.0).is_none() || find_row(rows, e.1).is_none() {
            proof {
                lemma_insert_deps_err(s0, es@, k + 1);
            }
            return Err(ShizenError::RusqliteError(DbError::ForeignKeyConstraintFailed));
        }
        if contains_edge(deps, e) {
            proof {
                lemma_insert_deps_err(s0, es@, k + 1);
            }
            return Err(ShizenError::RusqliteError(DbError::UniqueConstraintFailed));
        }
        let ghost before = deps@;
        deps.push(e);
        proof {
            assert forall|x: (NoteId, NoteId)| #[trigger]
                deps@.contains(x) implies has_row(s0.notes, x.0) && has_row(s0.notes, x.1) by {
                lemma_push_contains(before, e, x);
            }
            let d = deps@;
            assert forall|i: int, j: int|
                0 <= i < d.len() && 0 <= j < d.len() && i != j implies d[i] != d[j] by {
                if i < before.len() && j < before.len() {
                } else if i < before.len() {
                    assert(before.contains(d[i]));
                } else if j < before.len() {
                    assert(before.contains(d[j]));
                }
            }
        }
        k = k + 1;
    }
    assert(es@.subrange(0, es@.len() as int) =~= es@);
    Ok(())
}

impl RusqliteStorage {
    /// Puts a deleted note back with its rank, parent, children and
    /// dependencies; nothing changes if any of them is refused.
    fn restore_note_exec(&mut self, n: &Note, rank: &Option<String>) -> (r: ShizenResult<()>)
        requires
            old(self).wf(),
        ensures
            final(self).wf(),
            outcome_is(r, old(self)@, final(self)@, restore_note(old(self)@, n@, opt_text(*rank))),
    {
        let ghost s0 = self@;
        let id = n.id;
        if self.find_note(id).is_some() {
            return Err(ShizenError::RusqliteError(DbError::UniqueConstraintFailed));
        }
        match n.parent_id {
            Some(p) => {
                if self.find_note(p).is_none() {
                    return Err(ShizenError::RusqliteError(DbError::ForeignKeyConstraintFailed));
                }
            },
            None => {},
        }
        let mut rows = self.rows_copy();
        let row = NoteRow {
            id,
            title: n.title.clone(),
            description: copy_opt_text(&n.description),
            completed: n.completed,
            parent: n.parent_id,
            rank: copy_opt_text(rank),
        };
        rows.push(row);
        let ghost s1 = StoreV { notes: s0.notes.push(row@), ..s0 };
        proof {
            assert(rows_view(rows@) =~= s1.notes);
            let t = s1.notes;
            assert forall|i: int, j: int|
                0 <= i < t.len() && 0 <= j < t.len() && i != j implies #[trigger] t[i].id
                != #[trigger] t[j].id by {
                if i < s0.notes.len() && j < s0.notes.len() {
                } else if i < s0.notes.len() {
                    assert(s0.notes[i].id != id);
                } else {
                    assert(s0.notes[j].id != id);
                }
            }
            assert forall|x: NoteId| has_row(s0.notes, x) implies has_row(t, x) by {
                let i = choose|i: int| 0 <= i < s0.notes.len() && (#[trigger] s0.notes[i]).id == x;
                assert(t[i].id == x);
            }
            assert forall|i: int|
                0 <= i < t.len() && (#[trigger] t[i]).parent is Some implies has_row(t, t[i].parent->0) by {
                if i < s0.notes.len() {
                    assert(s0.notes[i].parent is Some);
                }
            }
            assert(t[s0.notes.len() as int].id == id);
        }
        let ghost cs = n@.children_ids;
        let mut k: usize = 0;
        assert(cs.subrange(0, 0) =~= Seq::<NoteId>::empty());
        assert(row@ == RowV {
            id: n@.id,
            title: n@.title,
            description: n@.description,
            completed: n@.completed,
            parent: n@.parent_id,
            rank: opt_text(*rank),
        });
        while k < n.children_ids.len()
            invariant
                self@ == s0,
                s0 == old(self)@,
                self.wf(),
                id == n.id,
                !has_row(s0.notes, id),
                n@.parent_id is Some ==> has_row(s0.notes, n@.parent_id->0),
                s1 == (StoreV {
                    notes: s0.notes.push(
                        RowV {
                            id: n@.id,
                            title: n@.title,
                            description: n@.description,
                            completed: n@.completed,
                            parent: n@.parent_id,
                            rank: opt_text(*rank),
                        },
                    ),
                    ..s0
                }),
                cs == n@.children_ids,
                k <= cs.len(),
                adopt_children(s1, id, cs.subrange(0, k as int)) == Ok::<StoreV, ErrorV>(
                    StoreV { notes: rows_view(rows@), ..s1 },
                ),
                rows_ok(rows_view(rows@)),
                has_row(rows_view(rows@), id),
                forall|x: NoteId| has_row(s1.notes, x) ==> has_row(rows_view(rows@), x),
            decreases n.children_ids.len() - k,
        {
            let c = n.children_ids[k];
            proof {
                assert(cs.subrange(0, k + 1).drop_last() =~= cs.subrange(0, k as int));
                assert(cs.subrange(0, k + 1).last() == c);
            }
            match find_row(&rows, c) {
                None => {
                    proof {
                        lemma_adopt_err(s1, id, cs, k + 1);
                    }
                    return Err(ShizenError::RusqliteError(DbError::ForeignKeyConstraintFailed));
                },
                Some(i) => {
                    let ghost before = rows_view(rows@);
                    rows[i].parent = Some(id);
                    proof {
                        assert(rows_view(rows@) =~= with_parent(before, c, Some(id)));
                        lemma_same_ids(before, rows_view(rows@));
                        let t = rows_view(rows@);
                        assert forall|j: int|
                            0 <= j < t.len() && (#[trigger] t[j]).parent is Some implies has_row(
                            t,
                            t[j].parent->0,
                        ) by {
                            if j != i {
                                assert(before[j].parent is Some);
                            }
                        }
                    }
                },
            }
            k = k + 1;
        }
        assert(cs.subrange(0, cs.len() as int) =~= cs);
        let ghost s2 = StoreV { notes: rows_view(rows@), ..s1 };
        let mut deps = copy_edges(&self.dependencies);
        proof {
            assert forall|e: (NoteId, NoteId)| #[trigger]
                deps@.contains(e) implies has_row(s2.notes, e.0) && has_row(s2.notes, e.1) by {
                assert(has_row(s0.notes, e.0) && has_row(s0.notes, e.1));
                assert forall|x: NoteId| has_row(s0.notes, x) implies has_row(s1.notes, x) by {
                    let i = choose|i: int| 0 <= i < s0.notes.len() && (#[trigger] s0.notes[i]).id == x;
                    assert(s1.notes[i].id == x);
                }
            }
        }
        let mut into: Vec<(NoteId, NoteId)> = Vec::new();
        let mut k: usize = 0;
        while k < n.notes_blocking_this.len()
            invariant
                id == n.id,
                k <= n@.notes_blocking_this.len(),
                into@ == edges_into(n@).subrange(0, k as int),
            decreases n.notes_blocking_this.len() - k,
        {
            into.push((n.notes_blocking_this[k], id));
            k = k + 1;
            assert(into@ =~= edges_into(n@).subrange(0, k as int));
        }
        assert(into@ =~= edges_into(n@));
        match insert_edges(&rows, &mut deps, &into, Ghost(s2)) {
            Ok(_) => {},
            Err(e) => {
                return Err(e);
            },
        }
        let ghost s3 = StoreV { deps: deps@, ..s2 };
        let mut out: Vec<(NoteId, NoteId)> = Vec::new();
        let mut k: usize = 0;
        while k < n.notes_this_blocks.len()
            invariant
                id == n.id,
                k <= n@.notes_this_blocks.len(),
                out@ == edges_out_of(n@).subrange(0, k as int),
            decreases n.notes_this_blocks.len() - k,
        {
            out.push((id, n.notes_this_blocks[k]));
            k = k + 1;
            assert(out@ =~= edges_out_of(n@).subrange(0, k as int));
        }
        assert(out@ =~= edges_out_of(n@));
        match insert_edges(&rows, &mut deps, &out, Ghost(s3)) {
            Ok(_) => {},
            Err(e) => {
                return Err(e);
            },
        }
        self.notes = rows;
        self.dependencies = deps;
        assert(self@ == (StoreV { deps: deps@, ..s3 }));
        Ok(())
    }

    /// Reverses the change of the action `a` (the log is left alone).
    fn revert_action_exec(&mut self, a: &Action) -> (r: ShizenResult<()>)
        requires
            old(self).wf(),
        ensures
            final(self).wf(),
            outcome_is(r, old(self)@, final(self)@, revert_action(old(self)@, a@)),
    {
        match a {
            Action::CreateNote { id, .. } => {
                self.remove_note_exec(*id);
                Ok(())
            },
            Action::SetCompleted { id, old_completed, .. } => {
                self.put_completed(*id, *old_completed);
                Ok(())
            },
            Action::UpdateTitle { id, old_title, .. } => {
                self.put_title(*id, old_title.clone());
                Ok(())
            },
            Action::UpdateDescription { id, old_description, .. } => {
                self.put_description(*id, copy_opt_text(old_description));
                Ok(())
            },
            Action::ChangeParent { id, old_parent, .. } => {
                if self.find_note(*id).is_some() {
                    match old_parent {
                        Some(p) => {
                            if self.find_note(*p).is_none() {
                                return Err(
                                    ShizenError::RusqliteError(DbError::ForeignKeyConstraintFailed),
                                );
                            }
                        },
                        None => {},
                    }
                }
                self.put_parent(*id, *old_parent);
                Ok(())
            },
            Action::AddDependency { blocker, blockee } => {
                let ghost s0 = self@;
                let f = Ghost(not_edge((*blocker, *blockee)));
                self.dependencies = without_edge(&self.dependencies, (*blocker, *blockee));
                proof {
                    assert forall|e: (NoteId, NoteId)| #[trigger]
                        self@.deps.contains(e) implies has_row(self@.notes, e.0) && has_row(
                        self@.notes,
                        e.1,
                    ) by {
                        lemma_keep_contains(s0.deps, f@, e);
                    }
                    lemma_keep_no_dup(s0.deps, f@);
                }
                Ok(())
            },
            Action::RemoveDependency { blocker, blockee } => self.insert_dep_exec(
                (*blocker, *blockee),
            ),
            Action::DeleteNote { note, rank } => self.restore_note_exec(note, rank),
            Action::ReorderNote { id, old_rank, .. } => {
                self.put_rank(*id, Some(old_rank.clone()));
                Ok(())
            },
        }
    }

    /// Applies an action as a new change and records it.
    fn apply_action_exec(&mut self, a: &Action) -> (r: ShizenResult<()>)
        requires
            old(self).wf(),
            old(self)@.clock < usize::MAX,
        ensures
            final(self).wf(),
            outcome_is(r, old(self)@, final(self)@, apply_action(old(self)@, a@)),
            ranks_ok(old(self)@.notes) ==> ranks_ok(final(self)@.notes),
            ranks_ok(old(self)@.notes) && creatable(old(self)@.notes, a@) ==> r is Ok,
    {
        let ghost s0 = self@;
        let r = match a {
            Action::CreateNote { id, title, description, parent } => {
                match self.apply_create_exec(*id, title.clone(), copy_opt_text(description), *parent) {
                    Ok(_) => Ok(()),
                    Err(e) => Err(e),
                }
            },
            Action::SetCompleted { id, new_completed, old_completed } => {
                self.apply_set_completed_exec(*id, *new_completed, *old_completed);
                Ok(())
            },
            Action::UpdateTitle { id, old_title, new_title } => {
                self.apply_update_title_exec(*id, new_title.clone(), old_title.clone());
                Ok(())
            },
            Action::UpdateDescription { id, old_description, new_description } => {
                self.apply_update_description_exec(
                    *id,
                    copy_opt_text(new_description),
                    copy_opt_text(old_description),
                );
                Ok(())
            },
            Action::ChangeParent { id, old_parent, new_parent } => self.apply_change_parent_exec(
                *id,
                *new_parent,
                *old_parent,
            ),
            Action::AddDependency { blocker, blockee } => self.apply_add_dependency_exec(
                *blocker,
                *blockee,
            ),
            Action::RemoveDependency { blocker, blockee } => self.apply_remove_dependency_exec(
                *blocker,
                *blockee,
            ),
            Action::DeleteNote { note, .. } => self.apply_delete_note_exec(note.id),
            Action::ReorderNote { id, before, after, .. } => self.apply_reorder_exec(
                *id,
                *after,
                *before,
            ),
        };
        proof {
            if ranks_ok(s0.notes) && r is Ok {
                let t = self@;
                match a@ {
                    ActionV::DeleteNote { note, .. } => {
                        lemma_ranks_ok_keep(s0.notes, |row: RowV| !in_subtree(s0, note.id, row.id));
                    },
                    ActionV::CreateNote { .. } => {},
                    ActionV::ReorderNote { .. } => {},
                    _ => {
                        assert(t.notes.len() == s0.notes.len());
                        lemma_ranks_ok_same_ranks(s0.notes, t.notes);
                    },
                }
            }
        }
        r
    }


}

impl TodoStorage for RusqliteStorage {
    open spec fn valid(&self) -> bool {
        self.wf()
    }

    open spec fn clock_value(&self) -> nat {
        self@.clock
    }

    /// Creates a note with a new random id, under `parent` if given, ranked
    /// after every other note, and records it.
    fn create_new_note(
        &mut self,
        title: &str,
        description: Option<&str>,
        parent: Option<&NoteId>,
    ) -> (r: ShizenResult<Note>)
        ensures
            final(self).wf(),
            match r {
                Ok(n) => create_note(old(self)@, n.id, title@, opt_str(description), opt_id(parent))
                    == Ok::<StoreV, ErrorV>(final(self)@) && n@ == created_note(
                    n.id,
                    title@,
                    opt_str(description),
                    opt_id(parent),
                ),
                Err(e) => final(self)@ == old(self)@ && exists|id: NoteId|
                    create_note(old(self)@, id, title@, opt_str(description), opt_id(parent))
                        == Err::<StoreV, ErrorV>(e@),
            },
            ranks_ok(old(self)@.notes) ==> ranks_ok(final(self)@.notes),
            ranks_ok(old(self)@.notes) && (parent is None || has_row(old(self)@.notes, *parent->0))
                ==> r is Ok || r->Err_0@ == ErrorV::Db(DbError::UniqueConstraintFailed),
            r is Ok && ranks_ok(old(self)@.notes) ==> forall|i: int|
                0 <= i < old(self)@.notes.len() ==> rank_lt(
                    (#[trigger] old(self)@.notes[i]).rank,
                    row_of(final(self)@.notes, r->Ok_0.id).rank,
                ),
    {
        let id = NoteId::new_random();
        let d = match description {
            Some(d) => Some(d.to_owned()),
            None => None,
        };
        let p = match parent {
            Some(p) => Some(*p),
            None => None,
        };
        self.apply_create_exec(id, title.to_owned(), d, p)
    }

    /// Adds a peer (that connected to this store) with its clock and address.
    fn add_connected_peer(&mut self, peer_id: PeerId, clock: usize, addr: &str) -> (r:
        ShizenResult<()>)
        ensures
            final(self).wf(),
            outcome_is(
                r,
                old(self)@,
                final(self)@,
                add_peer_record(old(self)@, PeerInfoV { peer_id, clock, addr: addr@ }),
            ),
    {
        if self.find_peer(peer_id).is_some() {
            return Err(ShizenError::RusqliteError(DbError::UniqueConstraintFailed));
        }
        self.push_peer(PeerInfo { peer_id, clock, addr: addr.to_owned() });
        Ok(())
    }

    /// All notes, in rank order.
    fn load_all_notes(&self) -> (r: ShizenResult<Vec<Note>>)
        ensures
            r is Ok,
            r is Ok ==> notes_view(r->Ok_0@) == all_notes(self@),
    {
        let mut mask: Vec<bool> = Vec::new();
        let mut k: usize = 0;
        while k < self.notes.len()
            invariant
                k <= self@.notes.len(),
                mask@.len() == k,
                forall|j: int| 0 <= j < k ==> mask@[j],
            decreases self.notes.len() - k,
        {
            mask.push(true);
            k = k + 1;
        }
        let r = self.notes_in_order(&mask);
        proof {
            let o = rank_order(self@);
            lemma_sort_idx_bound(self@.notes, self@.notes.len());
            lemma_keep_ext(o, |i: usize| mask@[i as int], |i: usize| true);
        }
        Ok(r)
    }

    /// The notes that are not completed, in rank order.
    fn load_all_incomplete_notes(&self) -> (r: ShizenResult<Vec<Note>>)
        ensures
            r is Ok,
            r is Ok ==> notes_view(r->Ok_0@) == incomplete_notes(self@),
    {
        let ghost sel = |i: usize| !self@.notes[i as int].completed;
        let mut mask: Vec<bool> = Vec::new();
        let mut k: usize = 0;
        while k < self.notes.len()
            invariant
                k <= self@.notes.len(),
                mask@.len() == k,
                sel == (|i: usize| !self@.notes[i as int].completed),
                forall|j: int| 0 <= j < k ==> mask@[j] == sel(j as usize),
            decreases self.notes.len() - k,
        {
            mask.push(!self.notes[k].completed);
            k = k + 1;
        }
        Ok(self.select_notes(&mask, Ghost(sel)))
    }

    /// The notes that are completed, in rank order.
    fn load_all_complete_notes(&self) -> (r: ShizenResult<Vec<Note>>)
        ensures
            r is Ok,
            r is Ok ==> notes_view(r->Ok_0@) == complete_notes(self@),
    {
        let ghost sel = |i: usize| self@.notes[i as int].completed;
        let mut mask: Vec<bool> = Vec::new();
        let mut k: usize = 0;
        while k < self.notes.len()
            invariant
                k <= self@.notes.len(),
                mask@.len() == k,
                sel == (|i: usize| self@.notes[i as int].completed),
                forall|j: int| 0 <= j < k ==> mask@[j] == sel(j as usize),
            decreases self.notes.len() - k,
        {
            mask.push(self.notes[k].completed);
            k = k + 1;
        }
        Ok(self.select_notes(&mask, Ghost(sel)))
    }

    /// The notes that no incomplete note blocks (leaving out completed notes
    /// unless `load_completed`), in rank order.
    fn load_all_unblocked_notes(&self, load_completed: bool) -> (r: ShizenResult<Vec<Note>>)
        ensures
            r is Ok,
            r is Ok ==> notes_view(r->Ok_0@) == unblocked_notes(self@, load_completed),
    {
        let ghost sel = |i: usize|
            !is_blocked(self@, self@.notes[i as int].id) && (load_completed
                || !self@.notes[i as int].completed);
        let mut mask: Vec<bool> = Vec::new();
        let mut k: usize = 0;
        while k < self.notes.len()
            invariant
                self.wf(),
                k <= self@.notes.len(),
                mask@.len() == k,
                sel == (|i: usize|
                    !is_blocked(self@, self@.notes[i as int].id) && (load_completed
                        || !self@.notes[i as int].completed)),
                forall|j: int| 0 <= j < k ==> mask@[j] == sel(j as usize),
            decreases self.notes.len() - k,
        {
            let blocked = self.is_blocked_exec(self.notes[k].id);
            mask.push(!blocked && (load_completed || !self.notes[k].completed));
            k = k + 1;
        }
        Ok(self.select_notes(&mask, Ghost(sel)))
    }

    /// The changes recorded at clock `clock` or later, oldest first.
    fn load_all_changes_since_clock(&self, clock: usize) -> (r: ShizenResult<Vec<Action>>)
        ensures
            r is Ok,
            r is Ok ==> actions_view(r->Ok_0@) == changes_since(self@, clock as nat),
    {
        let mut out: Vec<Action> = Vec::new();
        let mut k: usize = clock;
        if k > self.mutations.len() {
            return Ok(out);
        }
        while k < self.mutations.len()
            invariant
                clock <= k <= self@.mutations.len(),
                actions_view(out@) == self@.mutations.subrange(clock as int, k as int),
            decreases self.mutations.len() - k,
        {
            let ghost before = out@;
            let a = self.mutations[k].duplicate();
            assert(a@ == self@.mutations[k as int]);
            out.push(a);
            assert(actions_view(out@) =~= actions_view(before).push(a@));
            assert(self@.mutations.subrange(clock as int, k + 1) =~= self@.mutations.subrange(
                clock as int,
                k as int,
            ).push(a@));
            k = k + 1;
        }
        Ok(out)
    }

    /// The undone changes that `redo` would apply, the next one first.
    fn load_redo_queue(&self) -> (r: ShizenResult<Vec<Action>>)
        ensures
            r is Ok,
            r is Ok ==> actions_view(r->Ok_0@) == self@.redo.reverse(),
    {
        let mut out: Vec<Action> = Vec::new();
        let mut k: usize = self.redo_mutations.len();
        while k > 0
            invariant
                k <= self@.redo.len(),
                actions_view(out@) == self@.redo.subrange(k as int, self@.redo.len() as int).reverse(),
            decreases k,
        {
            k = k - 1;
            let ghost before = out@;
            let a = self.redo_mutations[k].duplicate();
            assert(a@ == self@.redo[k as int]);
            out.push(a);
            assert(actions_view(out@) =~= actions_view(before).push(a@));
            assert(self@.redo.subrange(k as int, self@.redo.len() as int).reverse() =~= self@.redo.subrange(
                k + 1,
                self@.redo.len() as int,
            ).reverse().push(a@));
        }
        assert(self@.redo.subrange(0, self@.redo.len() as int) =~= self@.redo);
        Ok(out)
    }

    /// The note `note_id`, with its relations.
    fn load_note(&self, note_id: &NoteId) -> (r: ShizenResult<Note>)
        ensures
            match r {
                Ok(n) => has_row(self@.notes, *note_id) && n@ == note_view(
                    self@,
                    row_of(self@.notes, *note_id),
                ),
                Err(e) => !has_row(self@.notes, *note_id) && e@ == ErrorV::Db(
                    DbError::QueryReturnedNoRows,
                ),
            },
    {
        match self.find_note(*note_id) {
            None => Err(ShizenError::RusqliteError(DbError::QueryReturnedNoRows)),
            Some(i) => Ok(self.build_note(i)),
        }
    }

    /// Whether the note `note_id` exists.
    fn note_exists(&self, note_id: &NoteId) -> (r: ShizenResult<bool>)
        ensures
            r == Ok::<bool, ShizenError>(has_row(self@.notes, *note_id)),
    {
        Ok(self.find_note(*note_id).is_some())
    }

    /// The descendants of a note in the hierarchy, in rank order.
    fn get_all_descendents(&self, note_id: &NoteId) -> (r: ShizenResult<Vec<Note>>)
        ensures
            r is Ok,
            r is Ok ==> notes_view(r->Ok_0@) == descendants(self@, *note_id),
    {
        let id = *note_id;
        let edges = self.parent_edge_list();
        let below = reachable_from(&edges, id);
        let ghost sel = |i: usize| reachable(parent_edges(self@.notes), id, self@.notes[i as int].id);
        let mut mask: Vec<bool> = Vec::new();
        let mut k: usize = 0;
        while k < self.notes.len()
            invariant
                k <= self@.notes.len(),
                mask@.len() == k,
                forall|x: NoteId| #[trigger] below@.contains(x) <==> reachable(parent_edges(self@.notes), id, x),
                sel == (|i: usize| reachable(parent_edges(self@.notes), id, self@.notes[i as int].id)),
                forall|j: int| 0 <= j < k ==> mask@[j] == sel(j as usize),
            decreases self.notes.len() - k,
        {
            mask.push(contains_id(&below, self.notes[k].id));
            k = k + 1;
        }
        Ok(self.select_notes(&mask, Ghost(sel)))
    }

    /// The notes that a note blocks, directly or (with `recursive`) through
    /// chains of dependencies, in rank order.
    fn get_all_blocked(&self, note_id: &NoteId, recursive: bool) -> (r: ShizenResult<Vec<Note>>)
        ensures
            r is Ok,
            r is Ok ==> notes_view(r->Ok_0@) == blocked_by(self@, *note_id, recursive),
    {
        let id = *note_id;
        let below = reachable_from(&self.dependencies, id);
        let ghost sel = |i: usize|
            if recursive {
                reachable(self@.deps, id, self@.notes[i as int].id)
            } else {
                self@.deps.contains((id, self@.notes[i as int].id))
            };
        let mut mask: Vec<bool> = Vec::new();
        let mut k: usize = 0;
        while k < self.notes.len()
            invariant
                k <= self@.notes.len(),
                mask@.len() == k,
                forall|x: NoteId| #[trigger] below@.contains(x) <==> reachable(self@.deps, id, x),
                sel == (|i: usize|
                    if recursive {
                        reachable(self@.deps, id, self@.notes[i as int].id)
                    } else {
                        self@.deps.contains((id, self@.notes[i as int].id))
                    }),
                forall|j: int| 0 <= j < k ==> mask@[j] == sel(j as usize),
            decreases self.notes.len() - k,
        {
            let x = self.notes[k].id;
            let m = if recursive {
                contains_id(&below, x)
            } else {
                contains_edge(&self.dependencies, (id, x))
            };
            mask.push(m);
            k = k + 1;
        }
        Ok(self.select_notes(&mask, Ghost(sel)))
    }

    /// The id of this store.
    fn get_peer_id(&self) -> (r: ShizenResult<PeerId>)
        ensures
            r == Ok::<PeerId, ShizenError>(self@.peer_id),
    {
        Ok(self.peer_id)
    }

    /// The clock of this store.
    fn get_clock(&self) -> (r: ShizenResult<usize>)
        ensures
            r is Ok,
            r is Ok ==> r->Ok_0 == self@.clock,
    {
        Ok(self.clock)
    }

    /// The peers this store knows.
    fn get_peers(&self) -> (r: ShizenResult<Vec<PeerInfo>>)
        ensures
            r is Ok,
            r is Ok ==> peers_view(r->Ok_0@) == self@.peers,
    {
        let mut out: Vec<PeerInfo> = Vec::new();
        let mut k: usize = 0;
        while k < self.peers.len()
            invariant
                k <= self@.peers.len(),
                peers_view(out@) == self@.peers.subrange(0, k as int),
            decreases self.peers.len() - k,
        {
            let ghost before = out@;
            let p = self.peers[k].duplicate();
            assert(p@ == self@.peers[k as int]);
            out.push(p);
            assert(peers_view(out@) =~= peers_view(before).push(p@));
            assert(self@.peers.subrange(0, k + 1) =~= self@.peers.subrange(0, k as int).push(p@));
            k = k + 1;
        }
        assert(self@.peers.subrange(0, self@.peers.len() as int) =~= self@.peers);
        Ok(out)
    }

    /// The peer `peer_id`.
    fn get_peer(&self, peer_id: &PeerId) -> (r: ShizenResult<PeerInfo>)
        ensures
            match r {
                Ok(p) => has_peer(self@.peers, *peer_id) && p@ == peer_of(self@.peers, *peer_id),
                Err(e) => !has_peer(self@.peers, *peer_id) && e@ == ErrorV::Db(
                    DbError::QueryReturnedNoRows,
                ),
            },
    {
        match self.find_peer(*peer_id) {
            None => Err(ShizenError::RusqliteError(DbError::QueryReturnedNoRows)),
            Some(i) => Ok(self.peers[i].duplicate()),
        }
    }

    /// Sets the completion of a note and records the change.
    fn set_completed(&mut self, note_id: &NoteId, completed: bool) -> (r: ShizenResult<()>)
        ensures
            final(self).wf(),
            outcome_is(r, old(self)@, final(self)@, set_completed_op(old(self)@, *note_id, completed)),
    {
        match self.find_note(*note_id) {
            None => Err(ShizenError::RusqliteError(DbError::QueryReturnedNoRows)),
            Some(i) => {
                let old_value = self.notes[i].completed;
                self.apply_set_completed_exec(*note_id, completed, old_value);
                Ok(())
            },
        }
    }

    /// Sets the title of a note and records the change.
    fn update_title(&mut self, note_id: &NoteId, title: &str) -> (r: ShizenResult<()>)
        ensures
            final(self).wf(),
            outcome_is(r, old(self)@, final(self)@, update_title_op(old(self)@, *note_id, title@)),
    {
        match self.find_note(*note_id) {
            None => Err(ShizenError::RusqliteError(DbError::QueryReturnedNoRows)),
            Some(i) => {
                let old_value = self.notes[i].title.clone();
                self.apply_update_title_exec(*note_id, title.to_owned(), old_value);
                Ok(())
            },
        }
    }

    /// Sets (or, with `None`, clears) the description of a note and records the change.
    fn update_description(&mut self, note_id: &NoteId, description: Option<&str>) -> (r:
        ShizenResult<()>)
        ensures
            final(self).wf(),
            outcome_is(
                r,
                old(self)@,
                final(self)@,
                update_description_op(old(self)@, *note_id, opt_str(description)),
            ),
    {
        match self.find_note(*note_id) {
            None => Err(ShizenError::RusqliteError(DbError::QueryReturnedNoRows)),
            Some(i) => {
                let old_value = copy_opt_text(&self.notes[i].description);
                let new_value = match description {
                    Some(d) => Some(d.to_owned()),
                    None => None,
                };
                self.apply_update_description_exec(*note_id, new_value, old_value);
                Ok(())
            },
        }
    }

    /// Moves a note under another note (or, with `None`, to the top level) and
    /// records the change.
    fn update_parent(&mut self, note_id: &NoteId, parent: Option<&NoteId>) -> (r:
        ShizenResult<()>)
        ensures
            final(self).wf(),
            outcome_is(
                r,
                old(self)@,
                final(self)@,
                update_parent_op(old(self)@, *note_id, opt_id(parent)),
            ),
    {
        match self.find_note(*note_id) {
            None => Err(ShizenError::RusqliteError(DbError::QueryReturnedNoRows)),
            Some(i) => {
                let old_value = self.notes[i].parent;
                let new = match parent {
                    Some(p) => Some(*p),
                    None => None,
                };
                self.apply_change_parent_exec(*note_id, new, old_value)
            },
        }
    }

    /// Makes `note_id` block `blocked_note` (refusing a dependency cycle) and
    /// records the change.
    fn add_blocked_note(&mut self, note_id: &NoteId, blocked_note: &NoteId) -> (r:
        ShizenResult<()>)
        ensures
            final(self).wf(),
            outcome_is(
                r,
                old(self)@,
                final(self)@,
                apply_add_dependency(old(self)@, *note_id, *blocked_note),
            ),
    {
        self.apply_add_dependency_exec(*note_id, *blocked_note)
    }

    /// Removes the dependency `note_id` blocks `blocked_note` and records the change.
    fn remove_blocked_note(&mut self, note_id: &NoteId, blocked_note: &NoteId) -> (r:
        ShizenResult<()>)
        ensures
            final(self).wf(),
            outcome_is(
                r,
                old(self)@,
                final(self)@,
                apply_remove_dependency(old(self)@, *note_id, *blocked_note),
            ),
    {
        self.apply_remove_dependency_exec(*note_id, *blocked_note)
    }

    /// Sets the clock up to which this store is synced with the peer `peer_id`.
    fn set_peer_clock(&mut self, peer_id: &PeerId, clock: usize) -> (r: ShizenResult<()>)
        ensures
            final(self).wf(),
            r is Ok,
            final(self)@ == (StoreV {
                peers: with_peer_clock(old(self)@.peers, *peer_id, clock),
                ..old(self)@
            }),
    {
        let ghost s0 = self@;
        match self.find_peer(*peer_id) {
            Some(i) => {
                self.peers[i].clock = clock;
            },
            None => {},
        }
        assert(self@.peers =~= with_peer_clock(s0.peers, *peer_id, clock));
        proof {
            let ps = self@.peers;
            assert forall|i: int, j: int|
                0 <= i < ps.len() && 0 <= j < ps.len() && i != j implies #[trigger] ps[i].peer_id
                != #[trigger] ps[j].peer_id by {
                assert(s0.peers[i].peer_id != s0.peers[j].peer_id);
            }
        }
        Ok(())
    }

    /// Moves a note between the note `after` and the note `before` in the
    /// user's order; one of them must be given.
    fn adjust_rank_between(
        &mut self,
        note_id: &NoteId,
        after: Option<&NoteId>,
        before: Option<&NoteId>,
    ) -> (r: ShizenResult<()>)
        ensures
            final(self).wf(),
            outcome_is(
                r,
                old(self)@,
                final(self)@,
                adjust_rank_op(old(self)@, *note_id, opt_id(after), opt_id(before)),
            ),
            r is Err && r->Err_0@ == ErrorV::InvalidRankAdjustment <==> after is None && before
                is None,
            ranks_ok(old(self)@.notes) ==> ranks_ok(final(self)@.notes),
            ranks_ok(old(self)@.notes) && movable(
                old(self)@.notes,
                *note_id,
                opt_id(after),
                opt_id(before),
            ) ==> r is Ok,
            r is Ok && ranks_ok(old(self)@.notes) ==> row_of(final(self)@.notes, *note_id).rank
                is Some && placed(
                neighbour_rank(old(self)@.notes, opt_id(after)),
                neighbour_rank(old(self)@.notes, opt_id(before)),
                row_of(final(self)@.notes, *note_id).rank->0,
            ),
    {
        if after.is_none() && before.is_none() {
            return Err(ShizenError::InvalidRankAdjustment);
        }
        let a = match after {
            Some(x) => Some(*x),
            None => None,
        };
        let b = match before {
            Some(x) => Some(*x),
            None => None,
        };
        self.apply_reorder_exec(*note_id, a, b)
    }

    /// Applies an action (such as one received from a peer) as a new change
    /// and records it.
    fn apply_action(&mut self, action: &Action) -> (r: ShizenResult<()>)
        ensures
            final(self).wf(),
            outcome_is(r, old(self)@, final(self)@, apply_action(old(self)@, action@)),
            ranks_ok(old(self)@.notes) ==> ranks_ok(final(self)@.notes),
            ranks_ok(old(self)@.notes) && creatable(old(self)@.notes, action@) ==> r is Ok,
    {
        self.apply_action_exec(action)
    }

    /// Reverses the last recorded change, moves it to the redo queue and
    /// returns the clock it was recorded at (with an empty log, the clock).
    fn undo(&mut self) -> (r: ShizenResult<usize>)
        ensures
            final(self).wf(),
            outcome_is(r, old(self)@, final(self)@, undo(old(self)@)),
            r is Ok ==> r->Ok_0 == final(self)@.clock,
    {
        let ghost s0 = self@;
        let n = self.mutations.len();
        if n == 0 {
            return Ok(self.clock);
        }
        let a = self.mutations[n - 1].duplicate();
        assert(a@ == s0.mutations.last());
        match self.revert_action_exec(&a) {
            Ok(_) => {},
            Err(e) => {
                return Err(e);
            },
        }
        let ghost s1 = self@;
        proof {
            lemma_revert_keeps_log(s0, a@);
        }
        self.mutations.pop();
        self.redo_mutations.push(a);
        self.clock = n - 1;
        assert(self@.mutations =~= s1.mutations.drop_last());
        assert(self@.redo =~= s1.redo.push(a@));
        Ok(self.clock)
    }

    /// Applies the most recently undone change again and returns the clock
    /// (with an empty redo queue, nothing changes).
    fn redo(&mut self) -> (r: ShizenResult<usize>)
        ensures
            final(self).wf(),
            outcome_is(r, old(self)@, final(self)@, redo(old(self)@)),
            r is Ok ==> r->Ok_0 == final(self)@.clock,
    {
        let ghost s0 = self@;
        let n = self.redo_mutations.len();
        if n == 0 {
            return Ok(self.clock);
        }
        let a = self.redo_mutations[n - 1].duplicate();
        assert(a@ == s0.redo.last());
        match self.apply_action_exec(&a) {
            Ok(_) => {},
            Err(e) => {
                return Err(e);
            },
        }
        let ghost s1 = self@;
        proof {
            lemma_apply_keeps_redo(s0, a@);
        }
        assert(s1.redo == s0.redo);
        self.redo_mutations.pop();
        assert(self@.redo =~= s1.redo.drop_last());
        Ok(self.clock)
    }

    /// Deletes a note with all its descendants and records the note as it was.
    fn delete_note(&mut self, note_id: &NoteId) -> (r: ShizenResult<()>)
        ensures
            final(self).wf(),
            outcome_is(r, old(self)@, final(self)@, apply_delete_note(old(self)@, *note_id)),
    {
        self.apply_delete_note_exec(*note_id)
    }

    /// Forgets the peer `peer_id`.
    fn remove_peer(&mut self, peer_id: &PeerId) -> (r: ShizenResult<()>)
        ensures
            final(self).wf(),
            r is Ok,
            final(self)@ == (StoreV {
                peers: keep(old(self)@.peers, |p: PeerInfoV| p.peer_id != *peer_id),
                ..old(self)@
            }),
    {
        let ghost s0 = self@;
        let ghost f = |p: PeerInfoV| p.peer_id != *peer_id;
        let mut out: Vec<PeerInfo> = Vec::new();
        let mut k: usize = 0;
        while k < self.peers.len()
            invariant
                self@ == s0,
                f == (|p: PeerInfoV| p.peer_id != *peer_id),
                k <= s0.peers.len(),
                peers_view(out@) == keep(s0.peers.subrange(0, k as int), f),
            decreases self.peers.len() - k,
        {
            proof {
                assert(s0.peers.subrange(0, k + 1) =~= s0.peers.subrange(0, k as int).push(s0.peers[k as int]));
                lemma_keep_push(s0.peers.subrange(0, k as int), f, s0.peers[k as int]);
            }
            if self.peers[k].peer_id != *peer_id {
                let ghost before = out@;
                out.push(self.peers[k].duplicate());
                assert(peers_view(out@) =~= peers_view(before).push(s0.peers[k as int]));
            }
            k = k + 1;
        }
        assert(s0.peers.subrange(0, s0.peers.len() as int) =~= s0.peers);
        self.peers = out;
        proof {
            let ps = self@.peers;
            assert forall|i: int, j: int|
                0 <= i < ps.len() && 0 <= j < ps.len() && i != j implies #[trigger] ps[i].peer_id
                != #[trigger] ps[j].peer_id by {
                lemma_keep_peers_unique(s0.peers, f, i, j);
            }
        }
        Ok(())
    }
}

/// The id an optional reference names.
pub open spec fn opt_id(o: Option<&NoteId>) -> Option<NoteId> {
    match o {
        Some(p) => Some(*p),
        None => None,
    }
}

/// The text of an optional string slice.
pub open spec fn opt_str(o: Option<&str>) -> Option<Seq<char>> {
    match o {
        Some(s) => Some(s@),
        None => None,
    }
}

// ---------------------------------------------------------------- contents

/// The content of a store, table by table: what a store is saved as and
/// restored from.
pub struct StoreContents {
    pub peer_id: PeerId,
    pub clock: usize,
    pub notes: Vec<NoteRow>,
    pub dependencies: Vec<(NoteId, NoteId)>,
    pub mutations: Vec<Action>,
    pub redo_mutations: Vec<Action>,
    pub peers: Vec<PeerInfo>,
}

impl View for StoreContents {
    type V = StoreV;

    open spec fn view(&self) -> StoreV {
        StoreV {
            peer_id: self.peer_id,
            clock: self.clock as nat,
            notes: rows_view(self.notes@),
            deps: self.dependencies@,
            mutations: actions_view(self.mutations@),
            redo: actions_view(self.redo_mutations@),
            peers: peers_view(self.peers@),
        }
    }
}

/// A copy of a list of actions.
fn copy_actions(v: &Vec<Action>) -> (r: Vec<Action>)
    ensures
        actions_view(r@) == actions_view(v@),
{
    let mut r: Vec<Action> = Vec::new();
    let mut i: usize = 0;
    while i < v.len()
        invariant
            i <= v@.len(),
            actions_view(r@) == actions_view(v@).subrange(0, i as int),
        decreases v.len() - i,
    {
        let ghost before = r@;
        let a = v[i].duplicate();
        r.push(a);
        assert(actions_view(r@) =~= actions_view(before).push(a@));
        assert(actions_view(v@).subrange(0, i + 1) =~= actions_view(v@).subrange(0, i as int).push(a@));
        i = i + 1;
    }
    assert(actions_view(v@).subrange(0, v@.len() as int) =~= actions_view(v@));
    r
}

impl RusqliteStorage {
    /// The content of this store, table by table.
    pub fn contents(&self) -> (c: StoreContents)
        requires
            self.wf(),
        ensures
            c@ == self@,
    {
        let notes = self.rows_copy();
        let peers = match self.get_peers() {
            Ok(p) => p,
            Err(_) => Vec::new(),
        };
        StoreContents {
            peer_id: self.peer_id,
            clock: self.clock,
            notes,
            dependencies: copy_edges(&self.dependencies),
            mutations: copy_actions(&self.mutations),
            redo_mutations: copy_actions(&self.redo_mutations),
            peers,
        }
    }

    /// Whether no two rows share an id.
    fn ids_unique(&self) -> (b: bool)
        ensures
            b == unique_ids(self@.notes),
    {
        let n = self.notes.len();
        let mut i: usize = 0;
        while i < n
            invariant
                n == self@.notes.len(),
                i <= n,
                forall|a: int, b: int|
                    0 <= a < i && 0 <= b < i && a != b ==> #[trigger] self@.notes[a].id
                        != #[trigger] self@.notes[b].id,
            decreases n - i,
        {
            let mut j: usize = 0;
            while j < i
                invariant
                    n == self@.notes.len(),
                    j <= i < n,
                    forall|a: int, b: int|
                        0 <= a < i && 0 <= b < i && a != b ==> #[trigger] self@.notes[a].id
                            != #[trigger] self@.notes[b].id,
                    forall|b: int| 0 <= b < j ==> self@.notes[b].id != self@.notes[i as int].id,
                decreases i - j,
            {
                if self.notes[j].id == self.notes[i].id {
                    assert(self@.notes[j as int].id == self@.notes[i as int].id);
                    return false;
                }
                j = j + 1;
            }
            i = i + 1;
        }
        true
    }

    /// Whether `id` names a row, for a store whose ids are not yet known to
    /// be unique.
    fn names_row(&self, id: NoteId) -> (b: bool)
        ensures
            b == has_row(self@.notes, id),
    {
        let mut i: usize = 0;
        while i < self.notes.len()
            invariant
                i <= self@.notes.len(),
                forall|j: int| 0 <= j < i ==> self@.notes[j].id != id,
            decreases self.notes.len() - i,
        {
            if self.notes[i].id == id {
                assert(self@.notes[i as int].id == id);
                return true;
            }
            i = i + 1;
        }
        false
    }

    /// Whether the parent of every row is a row.
    fn parents_exist(&self) -> (b: bool)
        ensures
            b == (forall|i: int|
                0 <= i < self@.notes.len() && (#[trigger] self@.notes[i]).parent is Some
                    ==> has_row(self@.notes, self@.notes[i].parent->0)),
    {
        let mut i: usize = 0;
        while i < self.notes.len()
            invariant
                i <= self@.notes.len(),
                forall|k: int|
                    0 <= k < i && (#[trigger] self@.notes[k]).parent is Some ==> has_row(
                        self@.notes,
                        self@.notes[k].parent->0,
                    ),
            decreases self.notes.len() - i,
        {
            match self.notes[i].parent {
                Some(p) => {
                    if !self.names_row(p) {
                        assert(self@.notes[i as int].parent == Some(p));
                        return false;
                    }
                },
                None => {},
            }
            i = i + 1;
        }
        true
    }

    /// Whether every dependency names two rows and none is held twice.
    fn dependencies_sound(&self) -> (b: bool)
        ensures
            b == ((forall|e: (NoteId, NoteId)| #[trigger]
                self@.deps.contains(e) ==> has_row(self@.notes, e.0) && has_row(self@.notes, e.1))
                && self@.deps.no_duplicates()),
    {
        let d = &self.dependencies;
        let n = d.len();
        let mut i: usize = 0;
        while i < n
            invariant
                d@ == self@.deps,
                n == d@.len(),
                i <= n,
                forall|k: int|
                    0 <= k < i ==> has_row(self@.notes, (#[trigger] d@[k]).0) && has_row(
                        self@.notes,
                        d@[k].1,
                    ),
                forall|a: int, b: int|
                    0 <= a < i && 0 <= b < i && a != b ==> #[trigger] d@[a] != #[trigger] d@[b],
            decreases n - i,
        {
            let (x, y) = d[i];
            if !self.names_row(x) || !self.names_row(y) {
                assert(d@.contains(d@[i as int]));
                return false;
            }
            let mut j: usize = 0;
            while j < i
                invariant
                    d@ == self@.deps,
                    n == d@.len(),
                    j <= i < n,
                    d@[i as int] == (x, y),
                    forall|a: int, b: int|
                        0 <= a < i && 0 <= b < i && a != b ==> #[trigger] d@[a] != #[trigger] d@[b],
                    forall|b: int| 0 <= b < j ==> d@[b] != d@[i as int],
                decreases i - j,
            {
                let (u, v) = d[j];
                if u == x && v == y {
                    assert(d@[j as int] == d@[i as int]);
                    return false;
                }
                j = j + 1;
            }
            i = i + 1;
        }
        assert forall|e: (NoteId, NoteId)| #[trigger] self@.deps.contains(e) implies has_row(
            self@.notes,
            e.0,
        ) && has_row(self@.notes, e.1) by {
            let k = choose|k: int| 0 <= k < d@.len() && d@[k] == e;
            assert(has_row(self@.notes, d@[k].0));
        }
        true
    }

    /// Whether no two peers share an id.
    fn peers_unique(&self) -> (b: bool)
        ensures
            b == unique_peers(self@.peers),
    {
        let n = self.peers.len();
        let mut i: usize = 0;
        while i < n
            invariant
                n == self@.peers.len(),
                i <= n,
                forall|a: int, b: int|
                    0 <= a < i && 0 <= b < i && a != b ==> #[trigger] self@.peers[a].peer_id
                        != #[trigger] self@.peers[b].peer_id,
            decreases n - i,
        {
            let mut j: usize = 0;
            while j < i
                invariant
                    n == self@.peers.len(),
                    j <= i < n,
                    forall|a: int, b: int|
                        0 <= a < i && 0 <= b < i && a != b ==> #[trigger] self@.peers[a].peer_id
                            != #[trigger] self@.peers[b].peer_id,
                    forall|b: int| 0 <= b < j ==> self@.peers[b].peer_id != self@.peers[i as int].peer_id,
                decreases i - j,
            {
                if self.peers[j].peer_id == self.peers[i].peer_id {
                    assert(self@.peers[j as int].peer_id == self@.peers[i as int].peer_id);
                    return false;
                }
                j = j + 1;
            }
            i = i + 1;
        }
        true
    }

    /// Restores a store from its content; content that no valid store has
    /// (a duplicate id, a parent or dependency naming a missing note, a
    /// dependency held twice, a clock that does not count the log, a peer
    /// listed twice) is refused.
    pub fn from_contents(c: StoreContents) -> (r: ShizenResult<RusqliteStorage>)
        ensures
            match r {
                Ok(s) => store_wf(c@) && s@ == c@,
                Err(e) => !store_wf(c@) && e@ == ErrorV::ErrorOpeningDb(
                    "the stored content is not a valid store"@,
                ),
            },
    {
        let ghost cv = c@;
        let s = RusqliteStorage {
            peer_id: c.peer_id,
            clock: c.clock,
            notes: c.notes,
            dependencies: c.dependencies,
            mutations: c.mutations,
            redo_mutations: c.redo_mutations,
            peers: c.peers,
        };
        assert(s@ == cv);
        if s.clock == s.mutations.len() && s.ids_unique() && s.parents_exist()
            && s.dependencies_sound() && s.peers_unique() {
            Ok(s)
        } else {
            Err(ShizenError::ErrorOpeningDb("the stored content is not a valid store".to_owned()))
        }
    }
}

/// The store that the library offers by default.
pub type DefaultStorage = RusqliteStorage;

} // verus!
