//! Laws of the note store: what holds across its operations.
use vstd::prelude::*;

use crate::entities::{ActionV, NoteId};
use crate::graph::{acyclic, lemma_push_keeps_acyclic, reachable, is_path, path_step};
use crate::storage::model::{
    adjust_rank_op, apply_action, apply_add_dependency, apply_delete_note, apply_remove_dependency, create_note, has_row, keep,
    lemma_keep_all, lemma_keep_contains, lemma_keep_push, not_edge, record, redo, row_of,
    set_completed_op, store_wf, undo, update_description_op, update_parent_op, update_title_op,
    with_completed, with_description, with_parent, with_rank, with_title, RowV, StoreV,
};

verus! {

/// The store `s` with `a` added to its redo queue.
pub open spec fn with_redo(s: StoreV, a: ActionV) -> StoreV {
    StoreV { redo: s.redo.push(a), ..s }
}

proof fn lemma_row_index(rows: Seq<RowV>, id: NoteId, j: int)
    requires
        crate::storage::model::unique_ids(rows),
        0 <= j < rows.len(),
        rows[j].id == id,
    ensures
        row_of(rows, id) == rows[j],
{
    crate::storage::model::lemma_row_of(rows, j);
}

proof fn lemma_completed_back(rows: Seq<RowV>, id: NoteId, c: bool)
    requires
        crate::storage::model::unique_ids(rows),
        has_row(rows, id),
    ensures
        with_completed(with_completed(rows, id, c), id, row_of(rows, id).completed) == rows,
{
    let t = with_completed(with_completed(rows, id, c), id, row_of(rows, id).completed);
    assert forall|j: int| 0 <= j < rows.len() implies t[j] == rows[j] by {
        if rows[j].id == id {
            lemma_row_index(rows, id, j);
        }
    }
    assert(t =~= rows);
}

proof fn lemma_title_back(rows: Seq<RowV>, id: NoteId, x: Seq<char>)
    requires
        crate::storage::model::unique_ids(rows),
        has_row(rows, id),
    ensures
        with_title(with_title(rows, id, x), id, row_of(rows, id).title) == rows,
{
    let t = with_title(with_title(rows, id, x), id, row_of(rows, id).title);
    assert forall|j: int| 0 <= j < rows.len() implies t[j] == rows[j] by {
        if rows[j].id == id {
            lemma_row_index(rows, id, j);
        }
    }
    assert(t =~= rows);
}

proof fn lemma_description_back(rows: Seq<RowV>, id: NoteId, x: Option<Seq<char>>)
    requires
        crate::storage::model::unique_ids(rows),
        has_row(rows, id),
    ensures
        with_description(with_description(rows, id, x), id, row_of(rows, id).description)
            == rows,
{
    let t = with_description(with_description(rows, id, x), id, row_of(rows, id).description);
    assert forall|j: int| 0 <= j < rows.len() implies t[j] == rows[j] by {
        if rows[j].id == id {
            lemma_row_index(rows, id, j);
        }
    }
    assert(t =~= rows);
}

proof fn lemma_parent_back(rows: Seq<RowV>, id: NoteId, x: Option<NoteId>)
    requires
        crate::storage::model::unique_ids(rows),
        has_row(rows, id),
    ensures
        with_parent(with_parent(rows, id, x), id, row_of(rows, id).parent) == rows,
{
    let t = with_parent(with_parent(rows, id, x), id, row_of(rows, id).parent);
    assert forall|j: int| 0 <= j < rows.len() implies t[j] == rows[j] by {
        if rows[j].id == id {
            lemma_row_index(rows, id, j);
        }
    }
    assert(t =~= rows);
}

proof fn lemma_rank_back(rows: Seq<RowV>, id: NoteId, x: Option<Seq<char>>)
    requires
        crate::storage::model::unique_ids(rows),
        has_row(rows, id),
    ensures
        with_rank(with_rank(rows, id, x), id, row_of(rows, id).rank) == rows,
{
    let t = with_rank(with_rank(rows, id, x), id, row_of(rows, id).rank);
    assert forall|j: int| 0 <= j < rows.len() implies t[j] == rows[j] by {
        if rows[j].id == id {
            lemma_row_index(rows, id, j);
        }
    }
    assert(t =~= rows);
}

/// Rows changed by an update of fields keep the ids, so they hold the same notes.
proof fn lemma_has_row_map(rows: Seq<RowV>, t: Seq<RowV>)
    requires
        rows.len() == t.len(),
        forall|j: int| 0 <= j < rows.len() ==> (#[trigger] t[j]).id == rows[j].id,
    ensures
        forall|x: NoteId| has_row(t, x) == has_row(rows, x),
{
    crate::storage::model::lemma_same_ids(rows, t);
}

/// Undoing a change of completion gives back the store as it was (the
/// change moves to the redo queue), and redoing it gives back the changed store.
pub proof fn law_undo_redo_set_completed(s: StoreV, id: NoteId, c: bool)
    requires
        store_wf(s),
        set_completed_op(s, id, c) is Ok,
    ensures
        ({
            let s1 = set_completed_op(s, id, c)->Ok_0;
            &&& undo(s1) == Ok::<StoreV, crate::result::ErrorV>(with_redo(s, s1.mutations.last()))
            &&& redo(with_redo(s, s1.mutations.last())) == Ok::<StoreV, crate::result::ErrorV>(s1)
        }),
{
    let s1 = set_completed_op(s, id, c)->Ok_0;
    lemma_completed_back(s.notes, id, c);
    let u = undo(s1)->Ok_0;
    assert(s1.mutations.drop_last() =~= s.mutations);
    assert(u =~= with_redo(s, s1.mutations.last()));
    let s2 = with_redo(s, s1.mutations.last());
    assert(s2.redo.drop_last() =~= s.redo);
}

/// Undoing a change of title gives back the store as it was (the change
/// moves to the redo queue), and redoing it gives back the changed store.
pub proof fn law_undo_redo_update_title(s: StoreV, id: NoteId, t: Seq<char>)
    requires
        store_wf(s),
        update_title_op(s, id, t) is Ok,
    ensures
        ({
            let s1 = update_title_op(s, id, t)->Ok_0;
            &&& undo(s1) == Ok::<StoreV, crate::result::ErrorV>(with_redo(s, s1.mutations.last()))
            &&& redo(with_redo(s, s1.mutations.last())) == Ok::<StoreV, crate::result::ErrorV>(s1)
        }),
{
    let s1 = update_title_op(s, id, t)->Ok_0;
    lemma_title_back(s.notes, id, t);
    assert(s1.mutations.drop_last() =~= s.mutations);
    let s2 = with_redo(s, s1.mutations.last());
    assert(s2.redo.drop_last() =~= s.redo);
}

/// Undoing a change of description gives back the store as it was (the
/// change moves to the redo queue), and redoing it gives back the changed store.
pub proof fn law_undo_redo_update_description(s: StoreV, id: NoteId, d: Option<Seq<char>>)
    requires
        store_wf(s),
        update_description_op(s, id, d) is Ok,
    ensures
        ({
            let s1 = update_description_op(s, id, d)->Ok_0;
            &&& undo(s1) == Ok::<StoreV, crate::result::ErrorV>(with_redo(s, s1.mutations.last()))
            &&& redo(with_redo(s, s1.mutations.last())) == Ok::<StoreV, crate::result::ErrorV>(s1)
        }),
{
    let s1 = update_description_op(s, id, d)->Ok_0;
    lemma_description_back(s.notes, id, d);
    assert(s1.mutations.drop_last() =~= s.mutations);
    let s2 = with_redo(s, s1.mutations.last());
    assert(s2.redo.drop_last() =~= s.redo);
}

/// Undoing a move under another parent gives back the store as it was (the
/// change moves to the redo queue), and redoing it gives back the changed store.
pub proof fn law_undo_redo_update_parent(s: StoreV, id: NoteId, p: Option<NoteId>)
    requires
        store_wf(s),
        update_parent_op(s, id, p) is Ok,
    ensures
        ({
            let s1 = update_parent_op(s, id, p)->Ok_0;
            &&& undo(s1) == Ok::<StoreV, crate::result::ErrorV>(with_redo(s, s1.mutations.last()))
            &&& redo(with_redo(s, s1.mutations.last())) == Ok::<StoreV, crate::result::ErrorV>(s1)
        }),
{
    let s1 = update_parent_op(s, id, p)->Ok_0;
    let old = row_of(s.notes, id).parent;
    lemma_parent_back(s.notes, id, p);
    lemma_has_row_map(s.notes, s1.notes);
    let j = choose|j: int| 0 <= j < s.notes.len() && (#[trigger] s.notes[j]).id == id;
    lemma_row_index(s.notes, id, j);
    if old is Some {
        assert(s.notes[j].parent is Some);
        assert(has_row(s1.notes, old->0));
    }
    assert(s1.mutations.drop_last() =~= s.mutations);
    let s2 = with_redo(s, s1.mutations.last());
    assert(s2.redo.drop_last() =~= s.redo);
}

/// Undoing a move in the user's order gives back the store as it was (the
/// change moves to the redo queue), and redoing it gives back the moved store.
pub proof fn law_undo_redo_adjust_rank(
    s: StoreV,
    id: NoteId,
    after: Option<NoteId>,
    before: Option<NoteId>,
)
    requires
        store_wf(s),
        adjust_rank_op(s, id, after, before) is Ok,
    ensures
        ({
            let s1 = adjust_rank_op(s, id, after, before)->Ok_0;
            &&& undo(s1) == Ok::<StoreV, crate::result::ErrorV>(with_redo(s, s1.mutations.last()))
            &&& redo(with_redo(s, s1.mutations.last())) == Ok::<StoreV, crate::result::ErrorV>(s1)
        }),
{
    let s1 = adjust_rank_op(s, id, after, before)->Ok_0;
    let k = crate::storage::model::rank_text(s, id)->Ok_0;
    let nr = s1.notes;
    assert(row_of(s.notes, id).rank == Some(k));
    lemma_rank_back(s.notes, id, Some(crate::storage::model::rank_between(
        crate::storage::model::opt_rank_text(s, after)->Ok_0,
        crate::storage::model::opt_rank_text(s, before)->Ok_0,
    )->Ok_0));
    assert(s1.mutations.drop_last() =~= s.mutations);
    let s2 = with_redo(s, s1.mutations.last());
    assert(s2.redo.drop_last() =~= s.redo);
}

/// Undoing a new dependency gives back the store as it was (the change moves
/// to the redo queue), and redoing it gives back the store with the dependency.
pub proof fn law_undo_redo_add_dependency(s: StoreV, blocker: NoteId, blockee: NoteId)
    requires
        store_wf(s),
        apply_add_dependency(s, blocker, blockee) is Ok,
    ensures
        ({
            let s1 = apply_add_dependency(s, blocker, blockee)->Ok_0;
            &&& undo(s1) == Ok::<StoreV, crate::result::ErrorV>(with_redo(s, s1.mutations.last()))
            &&& redo(with_redo(s, s1.mutations.last())) == Ok::<StoreV, crate::result::ErrorV>(s1)
        }),
{
    let s1 = apply_add_dependency(s, blocker, blockee)->Ok_0;
    let e = (blocker, blockee);
    lemma_keep_push(s.deps, not_edge(e), e);
    assert forall|i: int| 0 <= i < s.deps.len() implies (not_edge(e))(#[trigger] s.deps[i]) by {
        assert(s.deps.contains(s.deps[i]));
    }
    lemma_keep_all(s.deps, not_edge(e));
    assert(s1.mutations.drop_last() =~= s.mutations);
    let s2 = with_redo(s, s1.mutations.last());
    assert(s2.redo.drop_last() =~= s.redo);
}

/// Undoing the removal of a dependency gives back the store as it was but for
/// the place of the dependency in the list (the change moves to the redo
/// queue); redoing it gives back the store without the dependency.
pub proof fn law_undo_redo_remove_dependency(s: StoreV, blocker: NoteId, blockee: NoteId)
    requires
        store_wf(s),
        apply_remove_dependency(s, blocker, blockee) is Ok,
    ensures
        ({
            let s1 = apply_remove_dependency(s, blocker, blockee)->Ok_0;
            let u = undo(s1)->Ok_0;
            &&& undo(s1) is Ok
            &&& u == StoreV { deps: u.deps, ..with_redo(s, s1.mutations.last()) }
            &&& u.deps.to_set() == s.deps.to_set()
            &&& redo(u) == Ok::<StoreV, crate::result::ErrorV>(s1)
        }),
{
    let s1 = apply_remove_dependency(s, blocker, blockee)->Ok_0;
    let e = (blocker, blockee);
    let k = keep(s.deps, not_edge(e));
    lemma_keep_contains(s.deps, not_edge(e), e);
    assert(s1.mutations.drop_last() =~= s.mutations);
    let u = undo(s1)->Ok_0;
    assert(u.deps == k.push(e));
    assert forall|x: (NoteId, NoteId)| u.deps.to_set().contains(x) == s.deps.to_set().contains(x) by {
        crate::storage::model::lemma_push_contains(k, e, x);
        lemma_keep_contains(s.deps, not_edge(e), x);
    }
    assert(u.deps.to_set() =~= s.deps.to_set());
    lemma_keep_push(k, not_edge(e), e);
    assert forall|i: int| 0 <= i < k.len() implies (not_edge(e))(#[trigger] k[i]) by {
        assert(k.contains(k[i]));
        lemma_keep_contains(s.deps, not_edge(e), k[i]);
    }
    lemma_keep_all(k, not_edge(e));
    assert(u.redo.drop_last() =~= s.redo);
}

/// Undoing the creation of a note gives back the store as it was (the change
/// moves to the redo queue), and redoing it gives back the store with the note.
pub proof fn law_undo_redo_create_note(
    s: StoreV,
    id: NoteId,
    title: Seq<char>,
    description: Option<Seq<char>>,
    parent: Option<NoteId>,
)
    requires
        store_wf(s),
        create_note(s, id, title, description, parent) is Ok,
    ensures
        ({
            let s1 = create_note(s, id, title, description, parent)->Ok_0;
            &&& undo(s1) == Ok::<StoreV, crate::result::ErrorV>(with_redo(s, s1.mutations.last()))
            &&& redo(with_redo(s, s1.mutations.last())) == Ok::<StoreV, crate::result::ErrorV>(s1)
        }),
{
    let s1 = create_note(s, id, title, description, parent)->Ok_0;
    let f = |r: RowV| r.id != id;
    let row = s1.notes.last();
    assert(s1.notes =~= s.notes.push(row));
    lemma_keep_push(s.notes, f, row);
    assert forall|i: int| 0 <= i < s.notes.len() implies f(#[trigger] s.notes[i]) by {
        if s.notes[i].id == id {
            assert(has_row(s.notes, id));
        }
    }
    lemma_keep_all(s.notes, f);
    let o = crate::storage::model::orphan(s.notes, id);
    assert forall|i: int| 0 <= i < s.notes.len() implies o[i] == s.notes[i] by {
        if s.notes[i].parent == Some(id) {
            assert(s.notes[i].parent is Some);
        }
    }
    assert(o =~= s.notes);
    let g = crate::storage::model::avoids(id);
    assert forall|i: int| 0 <= i < s.deps.len() implies g(#[trigger] s.deps[i]) by {
        assert(s.deps.contains(s.deps[i]));
    }
    lemma_keep_all(s.deps, g);
    assert(s1.mutations.drop_last() =~= s.mutations);
    let s2 = with_redo(s, s1.mutations.last());
    assert(s2.redo.drop_last() =~= s.redo);
}

// ---------------------------------------------------------------- replay

/// Replaying the action that an accepted change recorded, on the store the
/// change was made on, makes the same change: the log holds what is needed to
/// make every change again (as a peer does with the changes it receives).
pub proof fn law_replay_recorded_change(s: StoreV, a: ActionV, t: StoreV)
    requires
        store_wf(s),
        apply_action(s, a) == Ok::<StoreV, crate::result::ErrorV>(t),
    ensures
        apply_action(s, t.mutations.last()) == Ok::<StoreV, crate::result::ErrorV>(t),
{
    if let ActionV::DeleteNote { note, .. } = a {
        let i = choose|i: int| 0 <= i < s.notes.len() && (#[trigger] s.notes[i]).id == note.id;
        lemma_row_index(s.notes, note.id, i);
    }
}

/// Each request that the store accepts records an action whose replay on the
/// store before the request makes the same change.
pub proof fn law_replay_of_requests(s: StoreV)
    requires
        store_wf(s),
    ensures
        forall|id: NoteId, c: bool|
            #[trigger] set_completed_op(s, id, c) is Ok ==> apply_action(s, set_completed_op(s, id, c)->Ok_0.mutations.last())
                == set_completed_op(s, id, c),
        forall|id: NoteId, x: Seq<char>|
            #[trigger] update_title_op(s, id, x) is Ok ==> apply_action(s, update_title_op(s, id, x)->Ok_0.mutations.last())
                == update_title_op(s, id, x),
        forall|id: NoteId, d: Option<Seq<char>>|
            #[trigger] update_description_op(s, id, d) is Ok ==> apply_action(s, update_description_op(s, id, d)->Ok_0.mutations.last())
                == update_description_op(s, id, d),
        forall|id: NoteId, p: Option<NoteId>|
            #[trigger] update_parent_op(s, id, p) is Ok ==> apply_action(s, update_parent_op(s, id, p)->Ok_0.mutations.last())
                == update_parent_op(s, id, p),
        forall|id: NoteId, after: Option<NoteId>, before: Option<NoteId>|
            #[trigger] adjust_rank_op(s, id, after, before) is Ok ==> apply_action(s, adjust_rank_op(s, id, after, before)->Ok_0.mutations.last())
                == adjust_rank_op(s, id, after, before),
        forall|x: NoteId, y: NoteId|
            #[trigger] apply_add_dependency(s, x, y) is Ok ==> apply_action(s, apply_add_dependency(s, x, y)->Ok_0.mutations.last())
                == apply_add_dependency(s, x, y),
        forall|x: NoteId, y: NoteId|
            #[trigger] apply_remove_dependency(s, x, y) is Ok ==> apply_action(s, apply_remove_dependency(s, x, y)->Ok_0.mutations.last())
                == apply_remove_dependency(s, x, y),
        forall|id: NoteId|
            #[trigger] apply_delete_note(s, id) is Ok ==> apply_action(s, apply_delete_note(s, id)->Ok_0.mutations.last())
                == apply_delete_note(s, id),
        forall|id: NoteId, x: Seq<char>, d: Option<Seq<char>>, p: Option<NoteId>|
            #[trigger] create_note(s, id, x, d, p) is Ok ==> apply_action(s, create_note(s, id, x, d, p)->Ok_0.mutations.last())
                == create_note(s, id, x, d, p),
{
    assert forall|id: NoteId| #[trigger] apply_delete_note(s, id) is Ok implies apply_action(
        s,
        apply_delete_note(s, id)->Ok_0.mutations.last(),
    ) == apply_delete_note(s, id) by {
        let i = choose|i: int| 0 <= i < s.notes.len() && (#[trigger] s.notes[i]).id == id;
        lemma_row_index(s.notes, id, i);
    }
}

} // verus!
