//! Undo and redo over a history of several requests: undoing them all, the
//! last first, gives back the store they started from, and redoing them all
//! gives back the store they made.
use vstd::prelude::*;

use crate::entities::NoteId;
use crate::laws::{
    law_undo_redo_add_dependency, law_undo_redo_adjust_rank, law_undo_redo_create_note,
    law_undo_redo_set_completed, law_undo_redo_update_description, law_undo_redo_update_parent,
    law_undo_redo_update_title, with_redo,
};
use crate::result::ErrorV;
use crate::storage::model::{
    has_row, lemma_push_contains, lemma_same_ids, lemma_same_shape, same_shape, unique_ids,
    adjust_rank_op, apply_add_dependency, create_note, redo, set_completed_op, store_wf, undo,
    update_description_op, update_parent_op, update_title_op, StoreV,
};

verus! {

/// A request that changes the store and that undo reverses exactly.
pub enum Request {
    SetCompleted(NoteId, bool),
    UpdateTitle(NoteId, Seq<char>),
    UpdateDescription(NoteId, Option<Seq<char>>),
    UpdateParent(NoteId, Option<NoteId>),
    AdjustRank(NoteId, Option<NoteId>, Option<NoteId>),
    AddDependency(NoteId, NoteId),
    CreateNote(NoteId, Seq<char>, Option<Seq<char>>, Option<NoteId>),
}

/// What the store's operation for the request makes of `s`.
pub open spec fn perform(s: StoreV, q: Request) -> Result<StoreV, ErrorV> {
    match q {
        Request::SetCompleted(id, c) => set_completed_op(s, id, c),
        Request::UpdateTitle(id, t) => update_title_op(s, id, t),
        Request::UpdateDescription(id, d) => update_description_op(s, id, d),
        Request::UpdateParent(id, p) => update_parent_op(s, id, p),
        Request::AdjustRank(id, after, before) => adjust_rank_op(s, id, after, before),
        Request::AddDependency(a, b) => apply_add_dependency(s, a, b),
        Request::CreateNote(id, t, d, p) => create_note(s, id, t, d, p),
    }
}

/// The requests performed one after the other; the first refusal stops them.
pub open spec fn performs(s: StoreV, qs: Seq<Request>) -> Result<StoreV, ErrorV>
    decreases qs.len(),
{
    if qs.len() == 0 {
        Ok(s)
    } else {
        match performs(s, qs.drop_last()) {
            Ok(t) => perform(t, qs.last()),
            Err(e) => Err(e),
        }
    }
}

/// Undo `n` times; the first refusal stops it.
pub open spec fn undo_times(s: StoreV, n: nat) -> Result<StoreV, ErrorV>
    decreases n,
{
    if n == 0 {
        Ok(s)
    } else {
        match undo(s) {
            Ok(t) => undo_times(t, (n - 1) as nat),
            Err(e) => Err(e),
        }
    }
}

/// Redo `n` times; the first refusal stops it.
pub open spec fn redo_times(s: StoreV, n: nat) -> Result<StoreV, ErrorV>
    decreases n,
{
    if n == 0 {
        Ok(s)
    } else {
        match redo_times(s, (n - 1) as nat) {
            Ok(t) => redo(t),
            Err(e) => Err(e),
        }
    }
}

/// The store `s` with the redo queue `r`.
pub open spec fn with_queue(s: StoreV, r: Seq<crate::entities::ActionV>) -> StoreV {
    StoreV { redo: r, ..s }
}

/// A request does not read the redo queue, leaves it alone, and records one
/// action.
proof fn lemma_perform_queue(s: StoreV, q: Request, r: Seq<crate::entities::ActionV>)
    ensures
        perform(with_queue(s, r), q) == (match perform(s, q) {
            Ok(t) => Ok(with_queue(t, r)),
            Err(e) => Err(e),
        }),
        perform(s, q) is Ok ==> perform(s, q)->Ok_0.redo == s.redo
            && perform(s, q)->Ok_0.mutations == s.mutations.push(
            perform(s, q)->Ok_0.mutations.last(),
        ),
{
    match q {
        Request::CreateNote(id, t, d, p) => {
            assert(crate::storage::model::new_rank(with_queue(s, r)) == crate::storage::model::new_rank(s));
        },
        Request::AdjustRank(id, after, before) => {
            assert(crate::storage::model::opt_rank_text(with_queue(s, r), after)
                == crate::storage::model::opt_rank_text(s, after));
            assert(crate::storage::model::opt_rank_text(with_queue(s, r), before)
                == crate::storage::model::opt_rank_text(s, before));
            assert(crate::storage::model::rank_text(with_queue(s, r), id)
                == crate::storage::model::rank_text(s, id));
        },
        _ => {},
    }
    if perform(s, q) is Ok {
        let t = perform(s, q)->Ok_0;
        assert(t.mutations == s.mutations.push(t.mutations.last()));
    }
}

/// Performing requests does not read the redo queue, leaves it alone, and
/// records one action for each.
proof fn lemma_performs_queue(s: StoreV, qs: Seq<Request>, r: Seq<crate::entities::ActionV>)
    ensures
        performs(with_queue(s, r), qs) == (match performs(s, qs) {
            Ok(t) => Ok(with_queue(t, r)),
            Err(e) => Err(e),
        }),
        performs(s, qs) is Ok ==> performs(s, qs)->Ok_0.redo == s.redo
            && performs(s, qs)->Ok_0.mutations.len() == s.mutations.len() + qs.len()
            && performs(s, qs)->Ok_0.mutations.subrange(0, s.mutations.len() as int) == s.mutations,
    decreases qs.len(),
{
    if qs.len() == 0 {
        assert(s.mutations.subrange(0, s.mutations.len() as int) =~= s.mutations);
    } else {
        lemma_performs_queue(s, qs.drop_last(), r);
        if performs(s, qs.drop_last()) is Ok {
            let t = performs(s, qs.drop_last())->Ok_0;
            lemma_perform_queue(t, qs.last(), r);
            if perform(t, qs.last()) is Ok {
                let u = perform(t, qs.last())->Ok_0;
                assert(u.mutations.subrange(0, s.mutations.len() as int) =~= t.mutations.subrange(
                    0,
                    s.mutations.len() as int,
                ));
            }
        }
    }
}

/// A request that goes through keeps the store valid.
proof fn lemma_perform_wf(s: StoreV, q: Request)
    requires
        store_wf(s),
        perform(s, q) is Ok,
    ensures
        store_wf(perform(s, q)->Ok_0),
{
    let t = perform(s, q)->Ok_0;
    match q {
        Request::UpdateParent(id, p) => {
            lemma_same_ids(s.notes, t.notes);
            assert forall|j: int|
                0 <= j < t.notes.len() && (#[trigger] t.notes[j]).parent is Some implies has_row(
                t.notes,
                t.notes[j].parent->0,
            ) by {
                if t.notes[j].id != id {
                    assert(s.notes[j].parent is Some);
                }
            }
            assert(unique_ids(t.notes)) by {
                assert forall|i: int, j: int|
                    0 <= i < t.notes.len() && 0 <= j < t.notes.len() && i != j implies #[trigger] t.notes[i].id
                    != #[trigger] t.notes[j].id by {
                    assert(s.notes[i].id != s.notes[j].id);
                }
            }
        },
        Request::AddDependency(a, b) => {
            assert forall|e: (NoteId, NoteId)| #[trigger]
                t.deps.contains(e) implies has_row(t.notes, e.0) && has_row(t.notes, e.1) by {
                lemma_push_contains(s.deps, (a, b), e);
            }
            assert(t.deps.no_duplicates()) by {
                let d = t.deps;
                assert forall|i: int, j: int|
                    0 <= i < d.len() && 0 <= j < d.len() && i != j implies d[i] != d[j] by {
                    if i < s.deps.len() && j < s.deps.len() {
                    } else if i < s.deps.len() {
                        assert(s.deps.contains(d[i]));
                    } else if j < s.deps.len() {
                        assert(s.deps.contains(d[j]));
                    }
                }
            }
        },
        Request::CreateNote(id, title, d, p) => {
            let row = t.notes.last();
            assert(t.notes =~= s.notes.push(row));
            assert(unique_ids(t.notes)) by {
                assert forall|i: int, j: int|
                    0 <= i < t.notes.len() && 0 <= j < t.notes.len() && i != j implies #[trigger] t.notes[i].id
                    != #[trigger] t.notes[j].id by {
                    if i < s.notes.len() && j < s.notes.len() {
                        assert(t.notes[i] == s.notes[i] && t.notes[j] == s.notes[j]);
                    } else if i < s.notes.len() {
                        assert(t.notes[i] == s.notes[i]);
                        assert(has_row(s.notes, s.notes[i].id));
                    } else if j < s.notes.len() {
                        assert(t.notes[j] == s.notes[j]);
                        assert(has_row(s.notes, s.notes[j].id));
                    }
                }
            }
            assert forall|x: NoteId| has_row(s.notes, x) implies has_row(t.notes, x) by {
                let i = choose|i: int| 0 <= i < s.notes.len() && (#[trigger] s.notes[i]).id == x;
                assert(t.notes[i] == s.notes[i]);
            }
            assert forall|j: int|
                0 <= j < t.notes.len() && (#[trigger] t.notes[j]).parent is Some implies has_row(
                t.notes,
                t.notes[j].parent->0,
            ) by {
                if j < s.notes.len() {
                    assert(t.notes[j] == s.notes[j]);
                    assert(s.notes[j].parent is Some);
                }
            }
            assert forall|e: (NoteId, NoteId)| #[trigger]
                t.deps.contains(e) implies has_row(t.notes, e.0) && has_row(t.notes, e.1) by {
                assert(s.deps.contains(e));
            }
        },
        _ => {
            assert(same_shape(s, t));
            lemma_same_shape(s, t);
        },
    }
}

/// A history that goes through passes through the stores of its prefixes,
/// each valid where the first is.
proof fn lemma_performs_prefix(s0: StoreV, qs: Seq<Request>, k: int)
    requires
        store_wf(s0),
        performs(s0, qs) is Ok,
        0 <= k <= qs.len(),
    ensures
        performs(s0, qs.take(k)) is Ok,
        store_wf(performs(s0, qs.take(k))->Ok_0),
    decreases qs.len(),
{
    if qs.len() > 0 {
        let dl = qs.drop_last();
        if k == qs.len() {
            assert(qs.take(k) =~= qs);
            lemma_performs_prefix(s0, dl, dl.len() as int);
            assert(dl.take(dl.len() as int) =~= dl);
            lemma_perform_wf(performs(s0, dl)->Ok_0, qs.last());
        } else {
            assert(qs.take(k) =~= dl.take(k));
            lemma_performs_prefix(s0, dl, k);
        }
    } else {
        assert(qs.take(k) =~= qs);
    }
}

/// Undoing a request gives back the store it was made on, with its recorded
/// action on the redo queue, and redoing it gives back the changed store.
proof fn lemma_undo_redo_request(s: StoreV, q: Request)
    requires
        store_wf(s),
        perform(s, q) is Ok,
    ensures
        ({
            let t = perform(s, q)->Ok_0;
            &&& undo(t) == Ok::<StoreV, ErrorV>(with_redo(s, t.mutations.last()))
            &&& redo(with_redo(s, t.mutations.last())) == Ok::<StoreV, ErrorV>(t)
        }),
{
    match q {
        Request::SetCompleted(id, c) => law_undo_redo_set_completed(s, id, c),
        Request::UpdateTitle(id, t) => law_undo_redo_update_title(s, id, t),
        Request::UpdateDescription(id, d) => law_undo_redo_update_description(s, id, d),
        Request::UpdateParent(id, p) => law_undo_redo_update_parent(s, id, p),
        Request::AdjustRank(id, after, before) => law_undo_redo_adjust_rank(s, id, after, before),
        Request::AddDependency(a, b) => law_undo_redo_add_dependency(s, a, b),
        Request::CreateNote(id, t, d, p) => law_undo_redo_create_note(s, id, t, d, p),
    }
}

/// Over a history of requests that a valid store accepts, undoing as many
/// times as there were requests gives back the store the history started
/// from, with the recorded actions on its redo queue (the last one first),
/// and redoing as many times gives back the store the history made.
pub proof fn law_undo_redo_history(s0: StoreV, qs: Seq<Request>)
    requires
        store_wf(s0),
        performs(s0, qs) is Ok,
    ensures
        ({
            let sn = performs(s0, qs)->Ok_0;
            let done = sn.mutations.subrange(s0.mutations.len() as int, sn.mutations.len() as int);
            let back = with_queue(s0, s0.redo + done.reverse());
            &&& undo_times(sn, qs.len()) == Ok::<StoreV, ErrorV>(back)
            &&& redo_times(back, qs.len()) == Ok::<StoreV, ErrorV>(sn)
        }),
    decreases qs.len(),
{
    let sn = performs(s0, qs)->Ok_0;
    if qs.len() == 0 {
        assert(s0.mutations.subrange(s0.mutations.len() as int, s0.mutations.len() as int) =~= Seq::<
            crate::entities::ActionV,
        >::empty());
        assert(s0.redo + Seq::<crate::entities::ActionV>::empty().reverse() =~= s0.redo);
        assert(with_queue(s0, s0.redo) == s0);
    } else {
        let dl = qs.drop_last();
        let q = qs.last();
        lemma_performs_prefix(s0, qs, dl.len() as int);
        assert(qs.take(dl.len() as int) =~= dl);
        let s1 = performs(s0, dl)->Ok_0;
        assert(sn == perform(s1, q)->Ok_0);
        lemma_performs_queue(s0, dl, s0.redo);
        lemma_perform_queue(s1, q, s1.redo);
        lemma_undo_redo_request(s1, q);
        let a = sn.mutations.last();
        // The base with the last action queued, and the history before it.
        let r = s0.redo.push(a);
        let b0 = with_queue(s0, r);
        lemma_performs_queue(s0, dl, r);
        assert(performs(b0, dl) == Ok::<StoreV, ErrorV>(with_queue(s1, r)));
        assert(with_queue(s1, r) == with_redo(s1, a));
        law_undo_redo_history(b0, dl);
        let done1 = s1.mutations.subrange(s0.mutations.len() as int, s1.mutations.len() as int);
        let done = sn.mutations.subrange(s0.mutations.len() as int, sn.mutations.len() as int);
        assert(done =~= done1.push(a));
        assert(r + done1.reverse() =~= s0.redo + done.reverse());
        assert(with_queue(b0, r + done1.reverse()) == with_queue(s0, s0.redo + done.reverse()));
        assert(undo_times(sn, qs.len()) == undo_times(with_redo(s1, a), dl.len()));
    }
}

} // verus!
