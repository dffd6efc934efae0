//! What each request does, stated by its effect on the store: which requests
//! go through, what the changed note then reads, what else stays, and what a
//! peer is answered.
use vstd::prelude::*;

use crate::entities::{ActionV, NoteId, NoteV, PeerId, PeerInfoV};
use crate::graph::reachable;
use crate::result::{DbError, ErrorV};
use crate::storage::model::{
    adjust_rank_op, all_notes, apply_add_dependency, apply_delete_note, apply_remove_dependency,
    blocked_by, create_note, in_subtree, lemma_keep_contains, new_rank, not_edge, blockees_of, blockers_of, children_of,
    complete_notes, descendants, has_peer, has_row, incomplete_notes, is_blocked, keep,
    lemma_keep_all, lemma_row_of, note_view, parent_edges, rank_order, row_of, set_completed_op,
    store_wf, unblocked_notes, update_description_op, update_parent_op, update_title_op, RowV,
    StoreV,
};
use crate::sync::{answer, SyncRequestV, SyncResponseV};

verus! {

/// The row of `id` is the row at `j`, and stays so in rows with the same ids.
proof fn lemma_row_at(s: Seq<RowV>, t: Seq<RowV>, id: NoteId) -> (j: int)
    requires
        crate::storage::model::unique_ids(s),
        has_row(s, id),
        t.len() == s.len(),
        forall|k: int| 0 <= k < s.len() ==> (#[trigger] t[k]).id == s[k].id,
    ensures
        0 <= j < s.len(),
        s[j].id == id,
        row_of(s, id) == s[j],
        row_of(t, id) == t[j],
{
    let j = choose|j: int| 0 <= j < s.len() && (#[trigger] s[j]).id == id;
    lemma_row_of(s, j);
    assert(crate::storage::model::unique_ids(t)) by {
        assert forall|a: int, b: int|
            0 <= a < t.len() && 0 <= b < t.len() && a != b implies #[trigger] t[a].id
            != #[trigger] t[b].id by {
            assert(s[a].id != s[b].id);
        }
    }
    lemma_row_of(t, j);
    j
}

/// Marking an existing note completed or not completed always goes through:
/// the note then reads with the requested value and everything else of it as
/// before, every other note stays as it was, and the log records the old and
/// the new value. A missing note is refused.
pub proof fn law_set_completed_effect(s: StoreV, id: NoteId, c: bool)
    requires
        store_wf(s),
    ensures
        set_completed_op(s, id, c) is Ok <==> has_row(s.notes, id),
        has_row(s.notes, id) ==> ({
            let t = set_completed_op(s, id, c)->Ok_0;
            &&& row_of(t.notes, id) == (RowV { completed: c, ..row_of(s.notes, id) })
            &&& note_view(t, row_of(t.notes, id)).completed == c
            &&& t.notes.len() == s.notes.len()
            &&& forall|k: int| 0 <= k < s.notes.len() && s.notes[k].id != id ==> #[trigger] t.notes[k] == s.notes[k]
            &&& t.deps == s.deps && t.peers == s.peers && t.redo == s.redo
            &&& t.mutations == s.mutations.push(
                ActionV::SetCompleted { id, new_completed: c, old_completed: row_of(s.notes, id).completed },
            )
        }),
{
    if has_row(s.notes, id) {
        let t = set_completed_op(s, id, c)->Ok_0;
        lemma_row_at(s.notes, t.notes, id);
    }
}

/// Retitling an existing note always goes through: the note then reads with
/// the new title and everything else of it as before, every other note stays,
/// and the log records the old and the new title.
pub proof fn law_update_title_effect(s: StoreV, id: NoteId, x: Seq<char>)
    requires
        store_wf(s),
    ensures
        update_title_op(s, id, x) is Ok <==> has_row(s.notes, id),
        has_row(s.notes, id) ==> ({
            let t = update_title_op(s, id, x)->Ok_0;
            &&& row_of(t.notes, id) == (RowV { title: x, ..row_of(s.notes, id) })
            &&& note_view(t, row_of(t.notes, id)).title == x
            &&& t.notes.len() == s.notes.len()
            &&& forall|k: int| 0 <= k < s.notes.len() && s.notes[k].id != id ==> #[trigger] t.notes[k] == s.notes[k]
            &&& t.deps == s.deps && t.peers == s.peers && t.redo == s.redo
            &&& t.mutations == s.mutations.push(
                ActionV::UpdateTitle { id, old_title: row_of(s.notes, id).title, new_title: x },
            )
        }),
{
    if has_row(s.notes, id) {
        let t = update_title_op(s, id, x)->Ok_0;
        lemma_row_at(s.notes, t.notes, id);
    }
}

/// Setting or clearing the description of an existing note always goes
/// through: the note then reads with the new description and everything else
/// of it as before, every other note stays, and the log records the old and
/// the new description.
pub proof fn law_update_description_effect(s: StoreV, id: NoteId, d: Option<Seq<char>>)
    requires
        store_wf(s),
    ensures
        update_description_op(s, id, d) is Ok <==> has_row(s.notes, id),
        has_row(s.notes, id) ==> ({
            let t = update_description_op(s, id, d)->Ok_0;
            &&& row_of(t.notes, id) == (RowV { description: d, ..row_of(s.notes, id) })
            &&& note_view(t, row_of(t.notes, id)).description == d
            &&& t.notes.len() == s.notes.len()
            &&& forall|k: int| 0 <= k < s.notes.len() && s.notes[k].id != id ==> #[trigger] t.notes[k] == s.notes[k]
            &&& t.deps == s.deps && t.peers == s.peers && t.redo == s.redo
            &&& t.mutations == s.mutations.push(
                ActionV::UpdateDescription {
                    id,
                    old_description: row_of(s.notes, id).description,
                    new_description: d,
                },
            )
        }),
{
    if has_row(s.notes, id) {
        let t = update_description_op(s, id, d)->Ok_0;
        lemma_row_at(s.notes, t.notes, id);
    }
}

/// A row whose parent is `p` makes its note one of the children of `p`.
proof fn lemma_child_listed(rows: Seq<RowV>, p: NoteId, j: int)
    requires
        0 <= j < rows.len(),
        rows[j].parent == Some(p),
    ensures
        children_of(rows, p).contains(rows[j].id),
    decreases rows.len(),
{
    let d = rows.drop_last();
    if j == rows.len() - 1 {
        assert(children_of(rows, p) == children_of(d, p).push(rows[j].id));
        assert(children_of(rows, p)[children_of(d, p).len() as int] == rows[j].id);
    } else {
        assert(d[j] == rows[j]);
        lemma_child_listed(d, p, j);
        let k = choose|k: int| 0 <= k < children_of(d, p).len() && children_of(d, p)[k] == rows[j].id;
        if rows.last().parent == Some(p) {
            assert(children_of(rows, p)[k] == rows[j].id);
        } else {
            assert(children_of(rows, p) == children_of(d, p));
        }
    }
}

/// Moving an existing note under an existing note that is neither itself nor
/// one of its descendants (or to the top level) goes through, and only then:
/// the note then has exactly that parent, is one of its children, keeps
/// everything else, every other note stays, and the log records the old and
/// the new parent. However many children the new parent already has does not
/// matter.
pub proof fn law_update_parent_effect(s: StoreV, id: NoteId, p: Option<NoteId>)
    requires
        store_wf(s),
    ensures
        update_parent_op(s, id, p) is Ok <==> has_row(s.notes, id) && (p is None || (has_row(
            s.notes,
            p->0,
        ) && p->0 != id && !reachable(parent_edges(s.notes), id, p->0))),
        update_parent_op(s, id, p) is Ok ==> ({
            let t = update_parent_op(s, id, p)->Ok_0;
            &&& row_of(t.notes, id) == (RowV { parent: p, ..row_of(s.notes, id) })
            &&& note_view(t, row_of(t.notes, id)).parent_id == p
            &&& p is Some ==> children_of(t.notes, p->0).contains(id)
            &&& t.notes.len() == s.notes.len()
            &&& forall|k: int| 0 <= k < s.notes.len() && s.notes[k].id != id ==> #[trigger] t.notes[k] == s.notes[k]
            &&& t.deps == s.deps && t.peers == s.peers && t.redo == s.redo
            &&& t.mutations == s.mutations.push(
                ActionV::ChangeParent { id, old_parent: row_of(s.notes, id).parent, new_parent: p },
            )
        }),
{
    if update_parent_op(s, id, p) is Ok {
        let t = update_parent_op(s, id, p)->Ok_0;
        let j = lemma_row_at(s.notes, t.notes, id);
        if p is Some {
            lemma_child_listed(t.notes, p->0, j);
        }
    }
}

/// Making one existing note block another goes through exactly when the two
/// differ, the dependency is not held yet and it closes no cycle: it then adds
/// exactly that edge, so the blocker is listed last among the blockee's
/// blockers and the blockee last among what the blocker blocks, however many
/// notes already block the blockee; the notes stay as they were.
pub proof fn law_add_dependency_effect(s: StoreV, x: NoteId, y: NoteId)
    requires
        store_wf(s),
    ensures
        apply_add_dependency(s, x, y) is Ok <==> has_row(s.notes, x) && has_row(s.notes, y) && x
            != y && !reachable(s.deps, y, x) && !s.deps.contains((x, y)),
        apply_add_dependency(s, x, y) is Ok ==> ({
            let t = apply_add_dependency(s, x, y)->Ok_0;
            &&& t.deps == s.deps.push((x, y))
            &&& blockers_of(t.deps, y) == blockers_of(s.deps, y).push(x)
            &&& blockees_of(t.deps, x) == blockees_of(s.deps, x).push(y)
            &&& t.notes == s.notes && t.peers == s.peers && t.redo == s.redo
            &&& t.mutations == s.mutations.push(ActionV::AddDependency { blocker: x, blockee: y })
        }),
{
    if apply_add_dependency(s, x, y) is Ok {
        let t = apply_add_dependency(s, x, y)->Ok_0;
        assert(t.deps.drop_last() =~= s.deps);
    }
}

/// Taking away a dependency goes through exactly when both notes exist and
/// the one blocks the other: it then removes that edge and no other, and the
/// notes stay as they were.
pub proof fn law_remove_dependency_effect(s: StoreV, x: NoteId, y: NoteId)
    requires
        store_wf(s),
    ensures
        apply_remove_dependency(s, x, y) is Ok <==> has_row(s.notes, x) && has_row(s.notes, y)
            && s.deps.contains((x, y)),
        apply_remove_dependency(s, x, y) is Ok ==> ({
            let t = apply_remove_dependency(s, x, y)->Ok_0;
            &&& !t.deps.contains((x, y))
            &&& forall|e: (NoteId, NoteId)| e != (x, y) ==> (#[trigger] t.deps.contains(e) <==> s.deps.contains(e))
            &&& t.notes == s.notes && t.peers == s.peers && t.redo == s.redo
            &&& t.mutations == s.mutations.push(ActionV::RemoveDependency { blocker: x, blockee: y })
        }),
{
    if apply_remove_dependency(s, x, y) is Ok {
        let t = apply_remove_dependency(s, x, y)->Ok_0;
        lemma_keep_contains(s.deps, not_edge((x, y)), (x, y));
        assert forall|e: (NoteId, NoteId)| e != (x, y) implies (#[trigger] t.deps.contains(e)
            <==> s.deps.contains(e)) by {
            lemma_keep_contains(s.deps, not_edge((x, y)), e);
        }
    }
}

/// Deleting goes through for every existing note, whatever children or
/// dependencies it has: the note is then gone, the peers stay, and the log
/// records the note as it read before, with its rank.
pub proof fn law_delete_effect(s: StoreV, id: NoteId)
    requires
        store_wf(s),
    ensures
        apply_delete_note(s, id) is Ok <==> has_row(s.notes, id),
        apply_delete_note(s, id) is Ok ==> ({
            let t = apply_delete_note(s, id)->Ok_0;
            &&& !has_row(t.notes, id)
            &&& forall|n: NoteId| #[trigger] has_row(t.notes, n) <==> has_row(s.notes, n) && !in_subtree(s, id, n)
            &&& t.peers == s.peers && t.redo == s.redo
            &&& t.mutations == s.mutations.push(
                ActionV::DeleteNote {
                    note: note_view(s, row_of(s.notes, id)),
                    rank: row_of(s.notes, id).rank,
                },
            )
        }),
{
    if apply_delete_note(s, id) is Ok {
        let t = apply_delete_note(s, id)->Ok_0;
        crate::invariants::law_delete_takes_subtree(s, id, t);
    }
}

/// Creating a note goes through exactly when its parent (if any) exists, its
/// id is new and a rank for it can be had: the note is then added after
/// every other one, which all stay as they were, not completed and with the
/// given title, description and parent.
pub proof fn law_create_effect(
    s: StoreV,
    id: NoteId,
    title: Seq<char>,
    description: Option<Seq<char>>,
    parent: Option<NoteId>,
)
    requires
        store_wf(s),
    ensures
        create_note(s, id, title, description, parent) is Ok <==> (parent is None || has_row(
            s.notes,
            parent->0,
        )) && new_rank(s) is Ok && !has_row(s.notes, id),
        create_note(s, id, title, description, parent) is Ok ==> ({
            let t = create_note(s, id, title, description, parent)->Ok_0;
            &&& t.notes == s.notes.push(
                RowV { id, title, description, completed: false, parent, rank: Some(new_rank(s)->Ok_0) },
            )
            &&& t.deps == s.deps && t.peers == s.peers && t.redo == s.redo
            &&& t.mutations == s.mutations.push(ActionV::CreateNote { id, title, description, parent })
        }),
{
}

/// Moving a note between two others touches the rank of that note only: every
/// other row, the dependencies and the peers stay, and the log records where
/// the note was moved and its old rank. Naming neither neighbour is refused
/// as an invalid adjustment, and only that is.
pub proof fn law_adjust_rank_effect(s: StoreV, id: NoteId, after: Option<NoteId>, before: Option<NoteId>)
    requires
        store_wf(s),
    ensures
        adjust_rank_op(s, id, after, before) == Err::<StoreV, ErrorV>(ErrorV::InvalidRankAdjustment)
            <==> after is None && before is None,
        adjust_rank_op(s, id, after, before) is Ok ==> ({
            let t = adjust_rank_op(s, id, after, before)->Ok_0;
            &&& has_row(s.notes, id)
            &&& row_of(t.notes, id) == (RowV { rank: row_of(t.notes, id).rank, ..row_of(s.notes, id) })
            &&& row_of(t.notes, id).rank is Some
            &&& t.notes.len() == s.notes.len()
            &&& forall|k: int| 0 <= k < s.notes.len() && s.notes[k].id != id ==> #[trigger] t.notes[k] == s.notes[k]
            &&& t.deps == s.deps && t.peers == s.peers && t.redo == s.redo
            &&& t.mutations == s.mutations.push(
                ActionV::ReorderNote { id, before, after, old_rank: row_of(s.notes, id).rank->0 },
            )
        }),
{
    if adjust_rank_op(s, id, after, before) is Ok {
        let t = adjust_rank_op(s, id, after, before)->Ok_0;
        lemma_row_at(s.notes, t.notes, id);
    }
}

/// The answer to a handshake names this store; one that carries a server
/// address registers the asking peer, if not known yet, with clock 0 (nothing
/// of it synced yet), whatever this store's own clock, and changes nothing
/// else; for a peer already known it is refused and nothing changes. The
/// answer to a sync request gives this store's clock and exactly the changes
/// recorded at the asked clock or later, oldest first, and marks the asking
/// peer (only it) as synced up to this store's clock.
pub proof fn law_answer_effect(s: StoreV, p: PeerId, a: Option<Seq<char>>, c: usize)
    ensures
        ({
            let (t, r) = answer(
                s,
                SyncRequestV::PeerIdentificationHandshake { local_peer_id: p, local_server_address: a },
            );
            &&& a is None || !has_peer(s.peers, p) ==> r == Ok::<SyncResponseV, ErrorV>(
                SyncResponseV::PeerIdentificationHandshakeResponse(s.peer_id),
            )
            &&& a is None ==> t == s
            &&& a is Some && !has_peer(s.peers, p) ==> t == (StoreV {
                peers: s.peers.push(PeerInfoV { peer_id: p, clock: 0, addr: a->0 }),
                ..s
            })
            &&& a is Some && has_peer(s.peers, p) ==> t == s && r == Err::<SyncResponseV, ErrorV>(
                ErrorV::Db(DbError::UniqueConstraintFailed),
            )
        }),
        ({
            let (t, r) = answer(s, SyncRequestV::Sync { local_peer_id: p, last_sync_clock: c });
            &&& r is Ok
            &&& r->Ok_0 matches SyncResponseV::SyncResponse { clock, changes } && clock == s.clock
                as usize && changes.len() == (if c <= s.mutations.len() {
                s.mutations.len() - c
            } else {
                0
            }) && forall|i: int| 0 <= i < changes.len() ==> #[trigger] changes[i] == s.mutations[c + i]
            &&& t.notes == s.notes && t.deps == s.deps && t.mutations == s.mutations
            &&& t.clock == s.clock && t.redo == s.redo
            &&& t.peers.len() == s.peers.len()
            &&& forall|k: int|
                0 <= k < s.peers.len() ==> #[trigger] t.peers[k] == (if s.peers[k].peer_id == p {
                    PeerInfoV { clock: s.clock as usize, ..s.peers[k] }
                } else {
                    s.peers[k]
                })
        }),
{
}

/// Keeping the indices that `sel` picks and then taking what `h` gives of
/// them is taking what `h` gives and keeping what `pred` picks, where `pred`
/// picks the image of an index exactly when `sel` picks the index.
proof fn lemma_keep_map(
    ix: Seq<usize>,
    sel: spec_fn(usize) -> bool,
    h: spec_fn(usize) -> NoteV,
    pred: spec_fn(NoteV) -> bool,
)
    requires
        forall|k: int| 0 <= k < ix.len() ==> sel(#[trigger] ix[k]) == pred(h(ix[k])),
    ensures
        keep(ix, sel).map_values(h) == keep(ix.map_values(h), pred),
    decreases ix.len(),
{
    if ix.len() > 0 {
        let d = ix.drop_last();
        assert forall|k: int| 0 <= k < d.len() implies sel(#[trigger] d[k]) == pred(h(d[k])) by {
            assert(d[k] == ix[k]);
        }
        lemma_keep_map(d, sel, h, pred);
        assert(ix.map_values(h).drop_last() =~= d.map_values(h));
        assert(ix.map_values(h).last() == h(ix.last()));
        assert(sel(ix[ix.len() - 1]) == pred(h(ix[ix.len() - 1])));
        assert(keep(d, sel).push(ix.last()).map_values(h) =~= keep(d, sel).map_values(h).push(
            h(ix.last()),
        ));
    } else {
        assert(keep(ix, sel).map_values(h) =~= Seq::<NoteV>::empty());
    }
}

/// Every listing of notes is the list of all notes, in the user's (rank)
/// order, cut down to the notes it is about: the unblocked ones (no
/// incomplete note blocks them; completed ones only where asked), the
/// incomplete ones, the completed ones, the descendants of a note, and the
/// notes a note blocks (directly, or through others where asked).
pub proof fn law_listings_follow_rank_order(s: StoreV, lc: bool, id: NoteId, recursive: bool)
    ensures
        unblocked_notes(s, lc) == keep(
            all_notes(s),
            |n: NoteV| !is_blocked(s, n.id) && (lc || !n.completed),
        ),
        incomplete_notes(s) == keep(all_notes(s), |n: NoteV| !n.completed),
        complete_notes(s) == keep(all_notes(s), |n: NoteV| n.completed),
        descendants(s, id) == keep(
            all_notes(s),
            |n: NoteV| reachable(parent_edges(s.notes), id, n.id),
        ),
        blocked_by(s, id, recursive) == keep(
            all_notes(s),
            |n: NoteV|
                if recursive {
                    reachable(s.deps, id, n.id)
                } else {
                    s.deps.contains((id, n.id))
                },
        ),
{
    let ro = rank_order(s);
    let h = |i: usize| note_view(s, s.notes[i as int]);
    let all = |i: usize| true;
    lemma_keep_all(ro, all);
    assert(all_notes(s) =~= ro.map_values(h));
    let sel1 = |i: usize| !is_blocked(s, s.notes[i as int].id) && (lc || !s.notes[i as int].completed);
    let p1 = |n: NoteV| !is_blocked(s, n.id) && (lc || !n.completed);
    lemma_keep_map(ro, sel1, h, p1);
    assert(unblocked_notes(s, lc) =~= keep(ro, sel1).map_values(h));
    let sel2 = |i: usize| !s.notes[i as int].completed;
    let p2 = |n: NoteV| !n.completed;
    lemma_keep_map(ro, sel2, h, p2);
    assert(incomplete_notes(s) =~= keep(ro, sel2).map_values(h));
    let sel3 = |i: usize| s.notes[i as int].completed;
    let p3 = |n: NoteV| n.completed;
    lemma_keep_map(ro, sel3, h, p3);
    assert(complete_notes(s) =~= keep(ro, sel3).map_values(h));
    let sel4 = |i: usize| reachable(parent_edges(s.notes), id, s.notes[i as int].id);
    let p4 = |n: NoteV| reachable(parent_edges(s.notes), id, n.id);
    lemma_keep_map(ro, sel4, h, p4);
    assert(descendants(s, id) =~= keep(ro, sel4).map_values(h));
    let sel5 = |i: usize|
        if recursive {
            reachable(s.deps, id, s.notes[i as int].id)
        } else {
            s.deps.contains((id, s.notes[i as int].id))
        };
    let p5 = |n: NoteV|
        if recursive {
            reachable(s.deps, id, n.id)
        } else {
            s.deps.contains((id, n.id))
        };
    lemma_keep_map(ro, sel5, h, p5);
    assert(blocked_by(s, id, recursive) =~= keep(ro, sel5).map_values(h));
}

} // verus!
