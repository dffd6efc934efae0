//! The mathematical model of the note store and of each of its operations.
//!
//! The store holds the rows of the notes (in the order they were inserted),
//! the dependency edges (blocker, blockee), the mutation log (the action at
//! index `i` was recorded at clock `i`), the redo queue, and the known peers.
//! Every operation is a function from a store to a new store or an error; a
//! refused operation leaves the store as it was.
use vstd::prelude::*;

use crate::entities::{ActionV, NoteId, NoteV, PeerId, PeerInfoV};
use crate::graph::reachable;
use crate::rank::{
    lemma_text_lt_total, lemma_text_lt_transitive, lexorank_between_text, lexorank_next_text,
    lexorank_prev_text, rank_lt, rank_text_ok,
};
use crate::result::{DbError, ErrorV};


verus! {

/// The stored fields of a note.
pub struct RowV {
    pub id: NoteId,
    pub title: Seq<char>,
    pub description: Option<Seq<char>>,
    pub completed: bool,
    pub parent: Option<NoteId>,
    pub rank: Option<Seq<char>>,
}

/// The whole content of a store.
pub struct StoreV {
    pub peer_id: PeerId,
    pub clock: nat,
    pub notes: Seq<RowV>,
    pub deps: Seq<(NoteId, NoteId)>,
    pub mutations: Seq<ActionV>,
    pub redo: Seq<ActionV>,
    pub peers: Seq<PeerInfoV>,
}

/// The elements of `s` for which `f` holds, in order.
pub open spec fn keep<A>(s: Seq<A>, f: spec_fn(A) -> bool) -> Seq<A>
    decreases s.len(),
{
    if s.len() == 0 {
        Seq::empty()
    } else {
        let r = keep(s.drop_last(), f);
        if f(s.last()) {
            r.push(s.last())
        } else {
            r
        }
    }
}

// ---------------------------------------------------------------- notes

pub open spec fn has_row(rows: Seq<RowV>, id: NoteId) -> bool {
    exists|i: int| 0 <= i < rows.len() && (#[trigger] rows[i]).id == id
}

/// The row of the note `id` (meaningful where there is one).
pub open spec fn row_of(rows: Seq<RowV>, id: NoteId) -> RowV {
    rows[choose|i: int| 0 <= i < rows.len() && (#[trigger] rows[i]).id == id]
}

pub open spec fn with_completed(rows: Seq<RowV>, id: NoteId, c: bool) -> Seq<RowV> {
    rows.map_values(|r: RowV| if r.id == id { RowV { completed: c, ..r } } else { r })
}

pub open spec fn with_title(rows: Seq<RowV>, id: NoteId, t: Seq<char>) -> Seq<RowV> {
    rows.map_values(|r: RowV| if r.id == id { RowV { title: t, ..r } } else { r })
}

pub open spec fn with_description(rows: Seq<RowV>, id: NoteId, d: Option<Seq<char>>) -> Seq<
    RowV,
> {
    rows.map_values(|r: RowV| if r.id == id { RowV { description: d, ..r } } else { r })
}

pub open spec fn with_parent(rows: Seq<RowV>, id: NoteId, p: Option<NoteId>) -> Seq<RowV> {
    rows.map_values(|r: RowV| if r.id == id { RowV { parent: p, ..r } } else { r })
}

pub open spec fn with_rank(rows: Seq<RowV>, id: NoteId, k: Option<Seq<char>>) -> Seq<RowV> {
    rows.map_values(|r: RowV| if r.id == id { RowV { rank: k, ..r } } else { r })
}

/// The notes whose parent is `id` lose their parent.
pub open spec fn orphan(rows: Seq<RowV>, id: NoteId) -> Seq<RowV> {
    rows.map_values(
        |r: RowV|
            if r.parent == Some(id) {
                RowV { parent: None::<NoteId>, ..r }
            } else {
                r
            },
    )
}

/// The edges parent -> child of the hierarchy, in the order of the rows.
pub open spec fn parent_edges(rows: Seq<RowV>) -> Seq<(NoteId, NoteId)>
    decreases rows.len(),
{
    if rows.len() == 0 {
        Seq::empty()
    } else {
        let e = parent_edges(rows.drop_last());
        match rows.last().parent {
            Some(p) => e.push((p, rows.last().id)),
            None => e,
        }
    }
}

/// The ids of the children of `id`, in the order of the rows.
pub open spec fn children_of(rows: Seq<RowV>, id: NoteId) -> Seq<NoteId>
    decreases rows.len(),
{
    if rows.len() == 0 {
        Seq::empty()
    } else {
        let c = children_of(rows.drop_last(), id);
        if rows.last().parent == Some(id) {
            c.push(rows.last().id)
        } else {
            c
        }
    }
}

/// The notes that `id` blocks, in the order of the edges.
pub open spec fn blockees_of(deps: Seq<(NoteId, NoteId)>, id: NoteId) -> Seq<NoteId>
    decreases deps.len(),
{
    if deps.len() == 0 {
        Seq::empty()
    } else {
        let c = blockees_of(deps.drop_last(), id);
        if deps.last().0 == id {
            c.push(deps.last().1)
        } else {
            c
        }
    }
}

/// The notes that block `id`, in the order of the edges.
pub open spec fn blockers_of(deps: Seq<(NoteId, NoteId)>, id: NoteId) -> Seq<NoteId>
    decreases deps.len(),
{
    if deps.len() == 0 {
        Seq::empty()
    } else {
        let c = blockers_of(deps.drop_last(), id);
        if deps.last().1 == id {
            c.push(deps.last().0)
        } else {
            c
        }
    }
}

/// A note as the store presents it: the fields of its row and its relations.
pub open spec fn note_view(s: StoreV, r: RowV) -> NoteV {
    NoteV {
        id: r.id,
        title: r.title,
        description: r.description,
        completed: r.completed,
        parent_id: r.parent,
        children_ids: children_of(s.notes, r.id),
        notes_this_blocks: blockees_of(s.deps, r.id),
        notes_blocking_this: blockers_of(s.deps, r.id),
    }
}

/// A note blocks another while it is not completed.
pub open spec fn is_blocked(s: StoreV, id: NoteId) -> bool {
    exists|b: NoteId|
        #![trigger s.deps.contains((b, id))]
        s.deps.contains((b, id)) && has_row(s.notes, b) && !row_of(s.notes, b).completed
}

// ---------------------------------------------------------------- order

/// Where index `k` goes in the sorted indices `s`: before the first index
/// from `i` on whose rank comes after its own.
pub open spec fn insert_pos(rows: Seq<RowV>, s: Seq<usize>, k: usize, i: int) -> int
    decreases s.len() - i,
{
    if i >= s.len() {
        s.len() as int
    } else if rank_lt(rows[k as int].rank, rows[s[i] as int].rank) {
        i
    } else {
        insert_pos(rows, s, k, i + 1)
    }
}

/// The indices of the first `n` rows, ordered by rank (a stable insertion
/// sort: rows of equal rank keep their order).
pub open spec fn sort_idx(rows: Seq<RowV>, n: nat) -> Seq<usize>
    decreases n,
{
    if n == 0 {
        Seq::empty()
    } else {
        let s = sort_idx(rows, (n - 1) as nat);
        s.insert(insert_pos(rows, s, (n - 1) as usize, 0), (n - 1) as usize)
    }
}

pub proof fn lemma_insert_pos_range(rows: Seq<RowV>, s: Seq<usize>, k: usize, i: int)
    requires
        0 <= i,
    ensures
        i <= s.len() ==> i <= insert_pos(rows, s, k, i) <= s.len(),
        i > s.len() ==> insert_pos(rows, s, k, i) == s.len(),
    decreases s.len() - i,
{
    if i < s.len() {
        lemma_insert_pos_range(rows, s, k, i + 1);
    }
}

/// The sorted indices of the first `n` rows are `n` indices below `n`.
pub proof fn lemma_sort_idx_bound(rows: Seq<RowV>, n: nat)
    ensures
        sort_idx(rows, n).len() == n,
        forall|j: int| 0 <= j < n ==> sort_idx(rows, n)[j] < n,
    decreases n,
{
    if n > 0 {
        let s = sort_idx(rows, (n - 1) as nat);
        lemma_sort_idx_bound(rows, (n - 1) as nat);
        let p = insert_pos(rows, s, (n - 1) as usize, 0);
        lemma_insert_pos_range(rows, s, (n - 1) as usize, 0);
        assert forall|j: int| 0 <= j < n implies sort_idx(rows, n)[j] < n by {
            if j < p {
                assert(sort_idx(rows, n)[j] == s[j]);
            } else if j > p {
                assert(sort_idx(rows, n)[j] == s[j - 1]);
            }
        }
    }
}

/// The indices of all rows in rank order.
pub open spec fn rank_order(s: StoreV) -> Seq<usize> {
    sort_idx(s.notes, s.notes.len())
}

/// The notes whose row index satisfies `sel`, in rank order.
pub open spec fn notes_where(s: StoreV, sel: spec_fn(usize) -> bool) -> Seq<NoteV> {
    keep(rank_order(s), sel).map_values(|i: usize| note_view(s, s.notes[i as int]))
}

/// All notes, in rank order.
pub open spec fn all_notes(s: StoreV) -> Seq<NoteV> {
    notes_where(s, |i: usize| true)
}

/// The notes that are not completed, in rank order.
pub open spec fn incomplete_notes(s: StoreV) -> Seq<NoteV> {
    notes_where(s, |i: usize| !s.notes[i as int].completed)
}

/// The notes that are completed, in rank order.
pub open spec fn complete_notes(s: StoreV) -> Seq<NoteV> {
    notes_where(s, |i: usize| s.notes[i as int].completed)
}

/// The notes that nothing blocks (and that are not completed, unless
/// `load_completed`), in rank order.
pub open spec fn unblocked_notes(s: StoreV, load_completed: bool) -> Seq<NoteV> {
    notes_where(
        s,
        |i: usize|
            !is_blocked(s, s.notes[i as int].id) && (load_completed
                || !s.notes[i as int].completed),
    )
}

/// The descendants of `id` in the hierarchy, in rank order.
pub open spec fn descendants(s: StoreV, id: NoteId) -> Seq<NoteV> {
    notes_where(s, |i: usize| reachable(parent_edges(s.notes), id, s.notes[i as int].id))
}

/// The notes that `id` blocks: directly, or through a chain of dependencies
/// where `recursive`; in rank order.
pub open spec fn blocked_by(s: StoreV, id: NoteId, recursive: bool) -> Seq<NoteV> {
    notes_where(
        s,
        |i: usize|
            if recursive {
                reachable(s.deps, id, s.notes[i as int].id)
            } else {
                s.deps.contains((id, s.notes[i as int].id))
            },
    )
}

// ---------------------------------------------------------------- log

/// `s` with `a` appended to the mutation log at the current clock, and the
/// clock advanced.
pub open spec fn record(s: StoreV, a: ActionV) -> StoreV {
    StoreV { mutations: s.mutations.push(a), clock: s.clock + 1, ..s }
}

/// The actions recorded at clock `clock` or later, oldest first.
pub open spec fn changes_since(s: StoreV, clock: nat) -> Seq<ActionV> {
    if clock <= s.mutations.len() {
        s.mutations.subrange(clock as int, s.mutations.len() as int)
    } else {
        Seq::empty()
    }
}

// ---------------------------------------------------------------- ranks

/// The greatest rank of the rows (`None` where no row has a rank).
pub open spec fn max_rank(rows: Seq<RowV>) -> Option<Seq<char>>
    decreases rows.len(),
{
    if rows.len() == 0 {
        None
    } else {
        let m = max_rank(rows.drop_last());
        if rank_lt(m, rows.last().rank) {
            rows.last().rank
        } else {
            m
        }
    }
}

/// A rank text of bucket `0` that the `lexorank` crate reads, as every rank
/// that the store computes is.
pub open spec fn rank_ok(t: Seq<char>) -> bool {
    rank_text_ok(t) && t[0] == '0'
}

/// Every note has a rank of bucket `0` that the `lexorank` crate reads.
pub open spec fn ranks_ok(rows: Seq<RowV>) -> bool {
    forall|i: int| 0 <= i < rows.len() ==> (#[trigger] rows[i]).rank is Some && rank_ok(rows[i].rank->0)
}

/// Rows with the same ranks, place by place, keep every rank readable.
pub proof fn lemma_ranks_ok_same_ranks(rows: Seq<RowV>, t: Seq<RowV>)
    requires
        ranks_ok(rows),
        t.len() == rows.len(),
        forall|j: int| 0 <= j < t.len() ==> (#[trigger] t[j]).rank == rows[j].rank,
    ensures
        ranks_ok(t),
{
    assert forall|j: int| 0 <= j < t.len() implies (#[trigger] t[j]).rank is Some && rank_ok(
        t[j].rank->0,
    ) by {
        assert(rows[j].rank is Some);
    }
}

/// Keeping some of the rows keeps every rank readable.
pub proof fn lemma_ranks_ok_keep(rows: Seq<RowV>, f: spec_fn(RowV) -> bool)
    requires
        ranks_ok(rows),
    ensures
        ranks_ok(keep(rows, f)),
{
    let t = keep(rows, f);
    assert forall|j: int| 0 <= j < t.len() implies (#[trigger] t[j]).rank is Some && rank_ok(
        t[j].rank->0,
    ) by {
        assert(t.contains(t[j]));
        lemma_keep_contains(rows, f, t[j]);
        let i = choose|i: int| 0 <= i < rows.len() && rows[i] == t[j];
        assert(rows[i].rank is Some);
    }
}

/// Where every note has a rank, the greatest rank is one of them, and every
/// other rank comes before it.
pub proof fn lemma_max_rank(rows: Seq<RowV>)
    requires
        rows.len() > 0,
        forall|i: int| 0 <= i < rows.len() ==> (#[trigger] rows[i]).rank is Some,
    ensures
        max_rank(rows) is Some,
        exists|k: int| 0 <= k < rows.len() && (#[trigger] rows[k]).rank == max_rank(rows),
        forall|i: int|
            0 <= i < rows.len() ==> (#[trigger] rows[i]).rank == max_rank(rows) || rank_lt(
                rows[i].rank,
                max_rank(rows),
            ),
    decreases rows.len(),
{
    let d = rows.drop_last();
    let l = rows.last();
    assert(rows[rows.len() - 1] == l);
    if d.len() == 0 {
        assert(max_rank(d) is None);
        assert(rows[0] == l);
    } else {
        assert forall|i: int| 0 <= i < d.len() implies (#[trigger] d[i]).rank is Some by {
            assert(d[i] == rows[i]);
        }
        lemma_max_rank(d);
        let m = max_rank(d);
        let k = choose|k: int| 0 <= k < d.len() && (#[trigger] d[k]).rank == m;
        assert(rows[k] == d[k]);
        if rank_lt(m, l.rank) {
            assert forall|i: int| 0 <= i < rows.len() implies (#[trigger] rows[i]).rank
                == max_rank(rows) || rank_lt(rows[i].rank, max_rank(rows)) by {
                if i < d.len() {
                    assert(rows[i] == d[i]);
                    if rows[i].rank != m {
                        lemma_text_lt_transitive(rows[i].rank->0, m->0, l.rank->0);
                    }
                }
            }
        } else {
            if m != l.rank {
                lemma_text_lt_total(m->0, l.rank->0);
            }
            assert forall|i: int| 0 <= i < rows.len() implies (#[trigger] rows[i]).rank
                == max_rank(rows) || rank_lt(rows[i].rank, max_rank(rows)) by {
                if i < d.len() {
                    assert(rows[i] == d[i]);
                }
            }
        }
    }
}

/// The rank of a new note: `0|a` in an empty store, else the rank after the
/// greatest one.
pub open spec fn new_rank(s: StoreV) -> Result<Seq<char>, ErrorV> {
    if s.notes.len() == 0 {
        Ok(seq!['0', '|', 'a'])
    } else {
        match max_rank(s.notes) {
            None => Err(ErrorV::Db(DbError::NullValue)),
            Some(m) => if !m.contains('|') {
                Err(ErrorV::LexorankParse)
            } else {
                match lexorank_next_text(m) {
                    Some(t) => Ok(t),
                    None => Err(ErrorV::LexorankParse),
                }
            },
        }
    }
}

/// The rank of the note `id`.
pub open spec fn rank_text(s: StoreV, id: NoteId) -> Result<Seq<char>, ErrorV> {
    if !has_row(s.notes, id) {
        Err(ErrorV::Db(DbError::QueryReturnedNoRows))
    } else {
        match row_of(s.notes, id).rank {
            None => Err(ErrorV::Db(DbError::NullValue)),
            Some(t) => Ok(t),
        }
    }
}

pub open spec fn opt_rank_text(s: StoreV, o: Option<NoteId>) -> Result<
    Option<Seq<char>>,
    ErrorV,
> {
    match o {
        None => Ok(None),
        Some(id) => match rank_text(s, id) {
            Ok(t) => Ok(Some(t)),
            Err(e) => Err(e),
        },
    }
}

/// The rank for a note placed after the note of rank `after` and before the
/// note of rank `before`.
pub open spec fn rank_between(after: Option<Seq<char>>, before: Option<Seq<char>>) -> Result<
    Seq<char>,
    ErrorV,
> {
    match (after, before) {
        (None, None) => Err(ErrorV::InvalidRankAdjustment),
        (None, Some(b)) => if !b.contains('|') {
            Err(ErrorV::LexorankParse)
        } else {
            match lexorank_prev_text(b) {
                Some(t) => Ok(t),
                None => Err(ErrorV::LexorankParse),
            }
        },
        (Some(a), None) => if !a.contains('|') {
            Err(ErrorV::LexorankParse)
        } else {
            match lexorank_next_text(a) {
                Some(t) => Ok(t),
                None => Err(ErrorV::LexorankParse),
            }
        },
        (Some(a), Some(b)) => if !a.contains('|') || !b.contains('|') {
            Err(ErrorV::LexorankParse)
        } else {
            match lexorank_between_text(a, b) {
                None => Err(ErrorV::LexorankParse),
                Some(None) => Err(ErrorV::NoRankBetween),
                Some(Some(t)) => Ok(t),
            }
        },
    }
}

// ---------------------------------------------------------------- changes

/// The note a successful creation returns.
pub open spec fn created_note(
    id: NoteId,
    title: Seq<char>,
    description: Option<Seq<char>>,
    parent: Option<NoteId>,
) -> NoteV {
    NoteV {
        id,
        title,
        description,
        completed: false,
        parent_id: parent,
        children_ids: Seq::empty(),
        notes_this_blocks: Seq::empty(),
        notes_blocking_this: Seq::empty(),
    }
}

/// Creates the note `id` (not completed) under `parent`, ranked after every
/// other note.
pub open spec fn create_note(
    s: StoreV,
    id: NoteId,
    title: Seq<char>,
    description: Option<Seq<char>>,
    parent: Option<NoteId>,
) -> Result<StoreV, ErrorV> {
    if parent is Some && !has_row(s.notes, parent->0) {
        Err(ErrorV::NoSuchNote(parent->0))
    } else {
        match new_rank(s) {
            Err(e) => Err(e),
            Ok(rank) => if has_row(s.notes, id) {
                Err(ErrorV::Db(DbError::UniqueConstraintFailed))
            } else {
                let row = RowV { id, title, description, completed: false, parent, rank: Some(rank) };
                Ok(
                    record(
                        StoreV { notes: s.notes.push(row), ..s },
                        ActionV::CreateNote { id, title, description, parent },
                    ),
                )
            },
        }
    }
}

pub open spec fn apply_set_completed(s: StoreV, id: NoteId, new: bool, old: bool) -> StoreV {
    record(
        StoreV { notes: with_completed(s.notes, id, new), ..s },
        ActionV::SetCompleted { id, new_completed: new, old_completed: old },
    )
}

pub open spec fn apply_update_title(
    s: StoreV,
    id: NoteId,
    new: Seq<char>,
    old: Seq<char>,
) -> StoreV {
    record(
        StoreV { notes: with_title(s.notes, id, new), ..s },
        ActionV::UpdateTitle { id, old_title: old, new_title: new },
    )
}

pub open spec fn apply_update_description(
    s: StoreV,
    id: NoteId,
    new: Option<Seq<char>>,
    old: Option<Seq<char>>,
) -> StoreV {
    record(
        StoreV { notes: with_description(s.notes, id, new), ..s },
        ActionV::UpdateDescription { id, old_description: old, new_description: new },
    )
}

/// Moves the note `id` under `new` (or to the top level), refusing the note
/// itself or one of its descendants as the parent.
pub open spec fn apply_change_parent(
    s: StoreV,
    id: NoteId,
    new: Option<NoteId>,
    old: Option<NoteId>,
) -> Result<StoreV, ErrorV> {
    if !has_row(s.notes, id) {
        Err(ErrorV::NoSuchNote(id))
    } else {
        let done = record(
            StoreV { notes: with_parent(s.notes, id, new), ..s },
            ActionV::ChangeParent { id, old_parent: old, new_parent: new },
        );
        match new {
            None => Ok(done),
            Some(p) => if !has_row(s.notes, p) {
                Err(ErrorV::NoSuchNote(p))
            } else if p == id || reachable(parent_edges(s.notes), id, p) {
                Err(ErrorV::ParentCircularReference(p, id))
            } else {
                Ok(done)
            },
        }
    }
}

/// Makes `blocker` block `blockee`, refusing a dependency cycle (a note
/// blocking itself among them).
pub open spec fn apply_add_dependency(s: StoreV, blocker: NoteId, blockee: NoteId) -> Result<
    StoreV,
    ErrorV,
> {
    if !has_row(s.notes, blocker) {
        Err(ErrorV::NoSuchNote(blocker))
    } else if !has_row(s.notes, blockee) {
        Err(ErrorV::NoSuchNote(blockee))
    } else if blocker == blockee || reachable(s.deps, blockee, blocker) {
        Err(ErrorV::DependencyCircularReference(blocker, blockee))
    } else if s.deps.contains((blocker, blockee)) {
        Err(ErrorV::Db(DbError::UniqueConstraintFailed))
    } else {
        Ok(
            record(
                StoreV { deps: s.deps.push((blocker, blockee)), ..s },
                ActionV::AddDependency { blocker, blockee },
            ),
        )
    }
}

pub open spec fn apply_remove_dependency(s: StoreV, blocker: NoteId, blockee: NoteId) -> Result<
    StoreV,
    ErrorV,
> {
    if !has_row(s.notes, blocker) {
        Err(ErrorV::NoSuchNote(blocker))
    } else if !has_row(s.notes, blockee) {
        Err(ErrorV::NoSuchNote(blockee))
    } else if !s.deps.contains((blocker, blockee)) {
        Err(ErrorV::NoSuchDependency(blocker, blockee))
    } else {
        Ok(
            record(
                StoreV { deps: keep(s.deps, not_edge((blocker, blockee))), ..s },
                ActionV::RemoveDependency { blocker, blockee },
            ),
        )
    }
}

/// The note `id` or one of its descendants.
pub open spec fn in_subtree(s: StoreV, id: NoteId, n: NoteId) -> bool {
    n == id || reachable(parent_edges(s.notes), id, n)
}

/// Deletes the note `id` with all its descendants and every dependency of
/// theirs; the log records the note as it was.
pub open spec fn apply_delete_note(s: StoreV, id: NoteId) -> Result<StoreV, ErrorV> {
    if !has_row(s.notes, id) {
        Err(ErrorV::Db(DbError::QueryReturnedNoRows))
    } else {
        let note = note_view(s, row_of(s.notes, id));
        let rank = row_of(s.notes, id).rank;
        Ok(
            record(
                StoreV {
                    notes: keep(s.notes, |r: RowV| !in_subtree(s, id, r.id)),
                    deps: keep(
                        s.deps,
                        |e: (NoteId, NoteId)| !in_subtree(s, id, e.0) && !in_subtree(s, id, e.1),
                    ),
                    ..s
                },
                ActionV::DeleteNote { note, rank },
            ),
        )
    }
}

/// Gives the note `id` a rank after the note `after` and before the note
/// `before`.
pub open spec fn apply_reorder(
    s: StoreV,
    id: NoteId,
    after: Option<NoteId>,
    before: Option<NoteId>,
) -> Result<StoreV, ErrorV> {
    match opt_rank_text(s, after) {
        Err(e) => Err(e),
        Ok(ar) => match opt_rank_text(s, before) {
            Err(e) => Err(e),
            Ok(br) => match rank_between(ar, br) {
                Err(e) => Err(e),
                Ok(nr) => match rank_text(s, id) {
                    Err(e) => Err(e),
                    Ok(old) => Ok(
                        record(
                            StoreV { notes: with_rank(s.notes, id, Some(nr)), ..s },
                            ActionV::ReorderNote { id, before, after, old_rank: old },
                        ),
                    ),
                },
            },
        },
    }
}

/// Applies an action as a new change (it is recorded in the log).
pub open spec fn apply_action(s: StoreV, a: ActionV) -> Result<StoreV, ErrorV> {
    match a {
        ActionV::CreateNote { id, title, description, parent } => create_note(
            s,
            id,
            title,
            description,
            parent,
        ),
        ActionV::SetCompleted { id, new_completed, old_completed } => Ok(
            apply_set_completed(s, id, new_completed, old_completed),
        ),
        ActionV::UpdateTitle { id, old_title, new_title } => Ok(
            apply_update_title(s, id, new_title, old_title),
        ),
        ActionV::UpdateDescription { id, old_description, new_description } => Ok(
            apply_update_description(s, id, new_description, old_description),
        ),
        ActionV::ChangeParent { id, old_parent, new_parent } => apply_change_parent(
            s,
            id,
            new_parent,
            old_parent,
        ),
        ActionV::AddDependency { blocker, blockee } => apply_add_dependency(s, blocker, blockee),
        ActionV::RemoveDependency { blocker, blockee } => apply_remove_dependency(
            s,
            blocker,
            blockee,
        ),
        ActionV::DeleteNote { note, .. } => apply_delete_note(s, note.id),
        ActionV::ReorderNote { id, before, after, old_rank } => apply_reorder(
            s,
            id,
            after,
            before,
        ),
    }
}

// ---------------------------------------------------------------- requests

/// Sets whether the note `id` is completed; the log keeps the old value.
pub open spec fn set_completed_op(s: StoreV, id: NoteId, c: bool) -> Result<StoreV, ErrorV> {
    if !has_row(s.notes, id) {
        Err(ErrorV::Db(DbError::QueryReturnedNoRows))
    } else {
        Ok(apply_set_completed(s, id, c, row_of(s.notes, id).completed))
    }
}

/// Sets the title of the note `id`; the log keeps the old title.
pub open spec fn update_title_op(s: StoreV, id: NoteId, t: Seq<char>) -> Result<StoreV, ErrorV> {
    if !has_row(s.notes, id) {
        Err(ErrorV::Db(DbError::QueryReturnedNoRows))
    } else {
        Ok(apply_update_title(s, id, t, row_of(s.notes, id).title))
    }
}

/// Sets (or clears) the description of the note `id`; the log keeps the old one.
pub open spec fn update_description_op(s: StoreV, id: NoteId, d: Option<Seq<char>>) -> Result<
    StoreV,
    ErrorV,
> {
    if !has_row(s.notes, id) {
        Err(ErrorV::Db(DbError::QueryReturnedNoRows))
    } else {
        Ok(apply_update_description(s, id, d, row_of(s.notes, id).description))
    }
}

/// Moves the note `id` under `p` (or to the top level); the log keeps the old parent.
pub open spec fn update_parent_op(s: StoreV, id: NoteId, p: Option<NoteId>) -> Result<
    StoreV,
    ErrorV,
> {
    if !has_row(s.notes, id) {
        Err(ErrorV::Db(DbError::QueryReturnedNoRows))
    } else {
        apply_change_parent(s, id, p, row_of(s.notes, id).parent)
    }
}

/// Moves the note `id` between `after` and `before`; one of them must be given.
pub open spec fn adjust_rank_op(
    s: StoreV,
    id: NoteId,
    after: Option<NoteId>,
    before: Option<NoteId>,
) -> Result<StoreV, ErrorV> {
    if after is None && before is None {
        Err(ErrorV::InvalidRankAdjustment)
    } else {
        apply_reorder(s, id, after, before)
    }
}

// ---------------------------------------------------------------- undo

/// The edges other than `e`.
pub open spec fn not_edge(e: (NoteId, NoteId)) -> spec_fn((NoteId, NoteId)) -> bool {
    |x: (NoteId, NoteId)| x != e
}

/// The dependencies in which the notes that blocked `n` block it again.
pub open spec fn edges_into(n: NoteV) -> Seq<(NoteId, NoteId)> {
    n.notes_blocking_this.map_values(|b: NoteId| (b, n.id))
}

/// The dependencies in which `n` blocks again the notes it blocked.
pub open spec fn edges_out_of(n: NoteV) -> Seq<(NoteId, NoteId)> {
    n.notes_this_blocks.map_values(|b: NoteId| (n.id, b))
}

/// The edges that do not name `id`.
pub open spec fn avoids(id: NoteId) -> spec_fn((NoteId, NoteId)) -> bool {
    |e: (NoteId, NoteId)| e.0 != id && e.1 != id
}

/// Removes the note `id`, the dependencies that name it, and the parent link
/// of its children.
pub open spec fn remove_note(s: StoreV, id: NoteId) -> StoreV {
    StoreV {
        notes: orphan(keep(s.notes, |r: RowV| r.id != id), id),
        deps: keep(s.deps, avoids(id)),
        ..s
    }
}

/// Adds the dependency edge `e`; both notes must exist and the edge must be new.
pub open spec fn insert_dep(s: StoreV, e: (NoteId, NoteId)) -> Result<StoreV, ErrorV> {
    if !has_row(s.notes, e.0) || !has_row(s.notes, e.1) {
        Err(ErrorV::Db(DbError::ForeignKeyConstraintFailed))
    } else if s.deps.contains(e) {
        Err(ErrorV::Db(DbError::UniqueConstraintFailed))
    } else {
        Ok(StoreV { deps: s.deps.push(e), ..s })
    }
}

/// Adds the edges `es` one after the other.
pub open spec fn insert_deps(s: StoreV, es: Seq<(NoteId, NoteId)>) -> Result<StoreV, ErrorV>
    decreases es.len(),
{
    if es.len() == 0 {
        Ok(s)
    } else {
        match insert_deps(s, es.drop_last()) {
            Err(e) => Err(e),
            Ok(s1) => insert_dep(s1, es.last()),
        }
    }
}

/// Makes `id` the parent of each of `cs`, one after the other; each must exist.
pub open spec fn adopt_children(s: StoreV, id: NoteId, cs: Seq<NoteId>) -> Result<StoreV, ErrorV>
    decreases cs.len(),
{
    if cs.len() == 0 {
        Ok(s)
    } else {
        match adopt_children(s, id, cs.drop_last()) {
            Err(e) => Err(e),
            Ok(s1) => if !has_row(s1.notes, cs.last()) {
                Err(ErrorV::Db(DbError::ForeignKeyConstraintFailed))
            } else {
                Ok(StoreV { notes: with_parent(s1.notes, cs.last(), Some(id)), ..s1 })
            },
        }
    }
}

/// Puts a deleted note back: its row with its rank, its parent, its
/// children, and its dependencies.
pub open spec fn restore_note(s: StoreV, n: NoteV, rank: Option<Seq<char>>) -> Result<StoreV, ErrorV> {
    if has_row(s.notes, n.id) {
        Err(ErrorV::Db(DbError::UniqueConstraintFailed))
    } else if n.parent_id is Some && !has_row(s.notes, n.parent_id->0) {
        Err(ErrorV::Db(DbError::ForeignKeyConstraintFailed))
    } else {
        let row = RowV {
            id: n.id,
            title: n.title,
            description: n.description,
            completed: n.completed,
            parent: n.parent_id,
            rank,
        };
        let s1 = StoreV { notes: s.notes.push(row), ..s };
        match adopt_children(s1, n.id, n.children_ids) {
            Err(e) => Err(e),
            Ok(s2) => match insert_deps(s2, edges_into(n)) {
                Err(e) => Err(e),
                Ok(s3) => insert_deps(s3, edges_out_of(n)),
            },
        }
    }
}

/// The change that reverses the action `a` (the log is left alone).
pub open spec fn revert_action(s: StoreV, a: ActionV) -> Result<StoreV, ErrorV> {
    match a {
        ActionV::CreateNote { id, .. } => Ok(remove_note(s, id)),
        ActionV::SetCompleted { id, old_completed, .. } => Ok(
            StoreV { notes: with_completed(s.notes, id, old_completed), ..s },
        ),
        ActionV::UpdateTitle { id, old_title, .. } => Ok(
            StoreV { notes: with_title(s.notes, id, old_title), ..s },
        ),
        ActionV::UpdateDescription { id, old_description, .. } => Ok(
            StoreV { notes: with_description(s.notes, id, old_description), ..s },
        ),
        ActionV::ChangeParent { id, old_parent, .. } => if has_row(s.notes, id)
            && old_parent is Some && !has_row(s.notes, old_parent->0) {
            Err(ErrorV::Db(DbError::ForeignKeyConstraintFailed))
        } else {
            Ok(StoreV { notes: with_parent(s.notes, id, old_parent), ..s })
        },
        ActionV::AddDependency { blocker, blockee } => Ok(
            StoreV { deps: keep(s.deps, not_edge((blocker, blockee))), ..s },
        ),
        ActionV::RemoveDependency { blocker, blockee } => insert_dep(s, (blocker, blockee)),
        ActionV::DeleteNote { note, rank } => restore_note(s, note, rank),
        ActionV::ReorderNote { id, old_rank, .. } => Ok(
            StoreV { notes: with_rank(s.notes, id, Some(old_rank)), ..s },
        ),
    }
}

/// Reverses the last recorded action, moves it to the redo queue and rewinds
/// the clock to the clock it was recorded at. With an empty log, nothing
/// changes.
pub open spec fn undo(s: StoreV) -> Result<StoreV, ErrorV> {
    if s.mutations.len() == 0 {
        Ok(s)
    } else {
        let a = s.mutations.last();
        match revert_action(s, a) {
            Err(e) => Err(e),
            Ok(s1) => Ok(
                StoreV {
                    mutations: s1.mutations.drop_last(),
                    redo: s1.redo.push(a),
                    clock: (s.mutations.len() - 1) as nat,
                    ..s1
                },
            ),
        }
    }
}

/// Applies the most recently undone action again and takes it off the redo
/// queue. With an empty queue, nothing changes.
pub open spec fn redo(s: StoreV) -> Result<StoreV, ErrorV> {
    if s.redo.len() == 0 {
        Ok(s)
    } else {
        match apply_action(s, s.redo.last()) {
            Err(e) => Err(e),
            Ok(s1) => Ok(StoreV { redo: s1.redo.drop_last(), ..s1 }),
        }
    }
}

// ---------------------------------------------------------------- peers

pub open spec fn has_peer(peers: Seq<PeerInfoV>, id: PeerId) -> bool {
    exists|i: int| 0 <= i < peers.len() && (#[trigger] peers[i]).peer_id == id
}

pub open spec fn peer_of(peers: Seq<PeerInfoV>, id: PeerId) -> PeerInfoV {
    peers[choose|i: int| 0 <= i < peers.len() && (#[trigger] peers[i]).peer_id == id]
}

pub open spec fn with_peer_clock(peers: Seq<PeerInfoV>, id: PeerId, clock: usize) -> Seq<
    PeerInfoV,
> {
    peers.map_values(
        |p: PeerInfoV|
            if p.peer_id == id {
                PeerInfoV { clock, ..p }
            } else {
                p
            },
    )
}

/// Adds a peer; its id must be new.
pub open spec fn add_peer_record(s: StoreV, p: PeerInfoV) -> Result<StoreV, ErrorV> {
    if has_peer(s.peers, p.peer_id) {
        Err(ErrorV::Db(DbError::UniqueConstraintFailed))
    } else {
        Ok(StoreV { peers: s.peers.push(p), ..s })
    }
}

// ---------------------------------------------------------------- validity

/// No two rows share an id.
pub open spec fn unique_ids(rows: Seq<RowV>) -> bool {
    forall|i: int, j: int|
        0 <= i < rows.len() && 0 <= j < rows.len() && i != j ==> #[trigger] rows[i].id
            != #[trigger] rows[j].id
}

/// No two peers share an id.
pub open spec fn unique_peers(peers: Seq<PeerInfoV>) -> bool {
    forall|i: int, j: int|
        0 <= i < peers.len() && 0 <= j < peers.len() && i != j ==> #[trigger] peers[i].peer_id
            != #[trigger] peers[j].peer_id
}

/// A valid store: note ids are unique, every parent and every dependency names
/// an existing note, no dependency is held twice, the clock counts the log,
/// and peer ids are unique.
pub open spec fn store_wf(s: StoreV) -> bool {
    &&& unique_ids(s.notes)
    &&& forall|i: int|
        0 <= i < s.notes.len() && (#[trigger] s.notes[i]).parent is Some ==> has_row(
            s.notes,
            s.notes[i].parent->0,
        )
    &&& forall|e: (NoteId, NoteId)| #[trigger]
        s.deps.contains(e) ==> has_row(s.notes, e.0) && has_row(s.notes, e.1)
    &&& s.deps.no_duplicates()
    &&& s.clock == s.mutations.len()
    &&& unique_peers(s.peers)
}

/// Where the outcome `r` of an operation left the store `after` that was
/// `before`: a success gives the store the model expects, a refusal the
/// error it expects and an unchanged store.
pub open spec fn outcome_is<T>(
    r: Result<T, crate::result::ShizenError>,
    before: StoreV,
    after: StoreV,
    expected: Result<StoreV, ErrorV>,
) -> bool {
    match r {
        Ok(_) => expected == Ok::<StoreV, ErrorV>(after),
        Err(e) => expected == Err::<StoreV, ErrorV>(e@) && after == before,
    }
}

/// Two stores whose rows have the same ids and parents in the same places,
/// with the same dependencies and peers.
pub open spec fn same_shape(s: StoreV, t: StoreV) -> bool {
    &&& t.notes.len() == s.notes.len()
    &&& forall|i: int|
        0 <= i < s.notes.len() ==> (#[trigger] t.notes[i]).id == s.notes[i].id && t.notes[i].parent
            == s.notes[i].parent
    &&& t.deps == s.deps
    &&& t.peers == s.peers
}

pub proof fn lemma_same_shape(s: StoreV, t: StoreV)
    requires
        same_shape(s, t),
    ensures
        forall|id: NoteId| has_row(t.notes, id) == has_row(s.notes, id),
        store_wf(s) && t.clock == t.mutations.len() ==> store_wf(t),
{
    assert forall|id: NoteId| has_row(t.notes, id) == has_row(s.notes, id) by {
        if has_row(t.notes, id) {
            let i = choose|i: int| 0 <= i < t.notes.len() && (#[trigger] t.notes[i]).id == id;
            assert(s.notes[i].id == id);
        }
        if has_row(s.notes, id) {
            let i = choose|i: int| 0 <= i < s.notes.len() && (#[trigger] s.notes[i]).id == id;
            assert(t.notes[i].id == id);
        }
    }
    if store_wf(s) && t.clock == t.mutations.len() {
        assert forall|i: int, j: int|
            0 <= i < t.notes.len() && 0 <= j < t.notes.len() && i != j implies #[trigger] t.notes[i].id
            != #[trigger] t.notes[j].id by {
            assert(s.notes[i].id != s.notes[j].id);
        }
        assert forall|i: int|
            0 <= i < t.notes.len() && (#[trigger] t.notes[i]).parent is Some implies has_row(
            t.notes,
            t.notes[i].parent->0,
        ) by {
            assert(s.notes[i].parent is Some);
        }
    }
}

/// Two row lists with the same ids at the same places.
pub open spec fn same_ids(a: Seq<RowV>, b: Seq<RowV>) -> bool {
    &&& a.len() == b.len()
    &&& forall|i: int| 0 <= i < a.len() ==> (#[trigger] a[i]).id == b[i].id
}

pub proof fn lemma_same_ids(a: Seq<RowV>, b: Seq<RowV>)
    requires
        same_ids(a, b),
    ensures
        forall|id: NoteId| has_row(a, id) == has_row(b, id),
        unique_ids(a) ==> unique_ids(b),
{
    assert forall|id: NoteId| has_row(a, id) == has_row(b, id) by {
        if has_row(a, id) {
            let i = choose|i: int| 0 <= i < a.len() && (#[trigger] a[i]).id == id;
            assert(b[i].id == id);
        }
        if has_row(b, id) {
            let i = choose|i: int| 0 <= i < b.len() && (#[trigger] b[i]).id == id;
            assert(a[i].id == id);
        }
    }
    if unique_ids(a) {
        assert forall|i: int, j: int|
            0 <= i < b.len() && 0 <= j < b.len() && i != j implies #[trigger] b[i].id
            != #[trigger] b[j].id by {
            assert(a[i].id != a[j].id);
        }
    }
}

/// The edge parent -> child of every row with a parent is in the hierarchy.
pub proof fn lemma_parent_edges_contains(rows: Seq<RowV>, i: int)
    requires
        0 <= i < rows.len(),
        rows[i].parent is Some,
    ensures
        parent_edges(rows).contains((rows[i].parent->0, rows[i].id)),
    decreases rows.len(),
{
    let e = parent_edges(rows.drop_last());
    if i == rows.len() - 1 {
        assert(parent_edges(rows) == e.push((rows[i].parent->0, rows[i].id)));
        assert(parent_edges(rows)[e.len() as int] == (rows[i].parent->0, rows[i].id));
    } else {
        lemma_parent_edges_contains(rows.drop_last(), i);
        let k = choose|k: int| 0 <= k < e.len() && e[k] == (rows[i].parent->0, rows[i].id);
        match rows.last().parent {
            Some(p) => {
                assert(parent_edges(rows)[k] == e[k]);
            },
            None => {},
        }
    }
}

/// Every edge of the hierarchy comes from a row with that parent.
pub proof fn lemma_parent_edges_from_rows(rows: Seq<RowV>, e: (NoteId, NoteId))
    requires
        parent_edges(rows).contains(e),
    ensures
        exists|i: int| 0 <= i < rows.len() && (#[trigger] rows[i]).id == e.1 && rows[i].parent == Some(e.0),
    decreases rows.len(),
{
    let pe = parent_edges(rows.drop_last());
    if rows.len() > 0 {
        match rows.last().parent {
            Some(p) => {
                lemma_push_contains(pe, (p, rows.last().id), e);
                if e == (p, rows.last().id) {
                    assert(rows[rows.len() - 1].id == e.1);
                } else {
                    lemma_parent_edges_from_rows(rows.drop_last(), e);
                    let i = choose|i: int| 0 <= i < rows.drop_last().len() && (#[trigger] rows.drop_last()[i]).id == e.1 && rows.drop_last()[i].parent == Some(e.0);
                    assert(rows[i] == rows.drop_last()[i]);
                }
            },
            None => {
                lemma_parent_edges_from_rows(rows.drop_last(), e);
                let i = choose|i: int| 0 <= i < rows.drop_last().len() && (#[trigger] rows.drop_last()[i]).id == e.1 && rows.drop_last()[i].parent == Some(e.0);
                assert(rows[i] == rows.drop_last()[i]);
            },
        }
    }
}

/// Keeping elements keeps them duplicate-free.
pub proof fn lemma_keep_no_dup<A>(s: Seq<A>, f: spec_fn(A) -> bool)
    requires
        s.no_duplicates(),
    ensures
        keep(s, f).no_duplicates(),
    decreases s.len(),
{
    if s.len() > 0 {
        let d = s.drop_last();
        assert(d.no_duplicates()) by {
            assert forall|i: int, j: int| 0 <= i < d.len() && 0 <= j < d.len() && i != j implies d[i] != d[j] by {
                assert(s[i] != s[j]);
            }
        }
        lemma_keep_no_dup(d, f);
        if f(s.last()) {
            lemma_keep_contains(d, f, s.last());
            if d.contains(s.last()) {
                let i = choose|i: int| 0 <= i < d.len() && d[i] == s.last();
                assert(s[i] == s[s.len() - 1]);
            }
            let k = keep(d, f);
            assert forall|i: int, j: int| 0 <= i < k.push(s.last()).len() && 0 <= j < k.push(s.last()).len() && i != j implies k.push(s.last())[i] != k.push(s.last())[j] by {
                if i < k.len() && j < k.len() {
                } else if i < k.len() {
                    assert(k.contains(k[i]));
                } else if j < k.len() {
                    assert(k.contains(k[j]));
                }
            }
        }
    }
}

/// Keeping rows keeps their ids unique.
pub proof fn lemma_keep_unique_ids(s: Seq<RowV>, f: spec_fn(RowV) -> bool)
    requires
        unique_ids(s),
    ensures
        unique_ids(keep(s, f)),
    decreases s.len(),
{
    if s.len() > 0 {
        let d = s.drop_last();
        assert(unique_ids(d)) by {
            assert forall|i: int, j: int| 0 <= i < d.len() && 0 <= j < d.len() && i != j implies #[trigger] d[i].id != #[trigger] d[j].id by {
                assert(s[i].id != s[j].id);
            }
        }
        lemma_keep_unique_ids(d, f);
        if f(s.last()) {
            let k = keep(d, f);
            assert forall|i: int| 0 <= i < k.len() implies (#[trigger] k[i]).id != s.last().id by {
                assert(k.contains(k[i]));
                lemma_keep_contains(d, f, k[i]);
                let j = choose|j: int| 0 <= j < d.len() && d[j] == k[i];
                assert(s[j].id != s[s.len() - 1].id);
            }
            let kp = k.push(s.last());
            assert forall|i: int, j: int| 0 <= i < kp.len() && 0 <= j < kp.len() && i != j implies #[trigger] kp[i].id != #[trigger] kp[j].id by {
                if i < k.len() && j < k.len() {
                    assert(k[i].id != k[j].id);
                } else if i < k.len() {
                    assert(k[i].id != s.last().id);
                } else if j < k.len() {
                    assert(k[j].id != s.last().id);
                }
            }
        }
    }
}

/// A row of `s` that `f` keeps is still there.
pub proof fn lemma_keep_has_row(s: Seq<RowV>, f: spec_fn(RowV) -> bool, i: int)
    requires
        0 <= i < s.len(),
        f(s[i]),
    ensures
        has_row(keep(s, f), s[i].id),
{
    assert(s.contains(s[i]));
    lemma_keep_contains(s, f, s[i]);
    let k = keep(s, f);
    let j = choose|j: int| 0 <= j < k.len() && k[j] == s[i];
    assert(k[j].id == s[i].id);
}

/// With unique ids, the row of `id` is the one at any index holding `id`.
pub proof fn lemma_row_of(rows: Seq<RowV>, i: int)
    requires
        unique_ids(rows),
        0 <= i < rows.len(),
    ensures
        has_row(rows, rows[i].id),
        row_of(rows, rows[i].id) == rows[i],
{
    let id = rows[i].id;
    assert(has_row(rows, id));
    let j = choose|j: int| 0 <= j < rows.len() && (#[trigger] rows[j]).id == id;
    assert(rows[j].id == rows[i].id);
}

/// Registers a peer learned by a handshake, at clock 0; refuses this store
/// itself and a peer it already knows.
pub open spec fn add_known_peer_op(s: StoreV, peer_id: PeerId, addr: Seq<char>) -> Result<
    StoreV,
    ErrorV,
> {
    if peer_id == s.peer_id {
        Err(ErrorV::CannotBePeerOfSelf)
    } else if has_peer(s.peers, peer_id) {
        Err(ErrorV::PeerAlreadyExists(peer_id))
    } else {
        Ok(StoreV { peers: s.peers.push(PeerInfoV { peer_id, clock: 0, addr }), ..s })
    }
}

/// Once a prefix of the children fails to be adopted, so do all of them.
pub proof fn lemma_adopt_err(s: StoreV, id: NoteId, cs: Seq<NoteId>, k: int)
    requires
        0 <= k <= cs.len(),
        adopt_children(s, id, cs.subrange(0, k)) is Err,
    ensures
        adopt_children(s, id, cs) == adopt_children(s, id, cs.subrange(0, k)),
    decreases cs.len() - k,
{
    if k < cs.len() {
        assert(cs.subrange(0, k + 1).drop_last() =~= cs.subrange(0, k));
        lemma_adopt_err(s, id, cs, k + 1);
    } else {
        assert(cs.subrange(0, k) =~= cs);
    }
}

/// Once a prefix of the edges fails to be inserted, so do all of them.
pub proof fn lemma_insert_deps_err(s: StoreV, es: Seq<(NoteId, NoteId)>, k: int)
    requires
        0 <= k <= es.len(),
        insert_deps(s, es.subrange(0, k)) is Err,
    ensures
        insert_deps(s, es) == insert_deps(s, es.subrange(0, k)),
    decreases es.len() - k,
{
    if k < es.len() {
        assert(es.subrange(0, k + 1).drop_last() =~= es.subrange(0, k));
        lemma_insert_deps_err(s, es, k + 1);
    } else {
        assert(es.subrange(0, k) =~= es);
    }
}

pub proof fn lemma_insert_deps_keeps(s: StoreV, es: Seq<(NoteId, NoteId)>)
    ensures
        insert_deps(s, es) is Ok ==> {
            let t = insert_deps(s, es)->Ok_0;
            t.notes == s.notes && t.mutations == s.mutations && t.redo == s.redo && t.clock
                == s.clock && t.peers == s.peers && t.peer_id == s.peer_id
        },
    decreases es.len(),
{
    if es.len() > 0 {
        lemma_insert_deps_keeps(s, es.drop_last());
    }
}

pub proof fn lemma_adopt_keeps(s: StoreV, id: NoteId, cs: Seq<NoteId>)
    ensures
        adopt_children(s, id, cs) is Ok ==> {
            let t = adopt_children(s, id, cs)->Ok_0;
            t.deps == s.deps && t.mutations == s.mutations && t.redo == s.redo && t.clock
                == s.clock && t.peers == s.peers && t.peer_id == s.peer_id
        },
    decreases cs.len(),
{
    if cs.len() > 0 {
        lemma_adopt_keeps(s, id, cs.drop_last());
    }
}

/// Reverting an action leaves the log, the redo queue, the clock and the peers alone.
pub proof fn lemma_revert_keeps_log(s: StoreV, a: ActionV)
    ensures
        revert_action(s, a) is Ok ==> {
            let t = revert_action(s, a)->Ok_0;
            t.mutations == s.mutations && t.redo == s.redo && t.clock == s.clock && t.peers
                == s.peers && t.peer_id == s.peer_id
        },
{
    match a {
        ActionV::DeleteNote { note, rank } => {
            if restore_note(s, note, rank) is Ok {
                let row = RowV {
                    id: note.id,
                    title: note.title,
                    description: note.description,
                    completed: note.completed,
                    parent: note.parent_id,
                    rank,
                };
                let s1 = StoreV { notes: s.notes.push(row), ..s };
                lemma_adopt_keeps(s1, note.id, note.children_ids);
                let s2 = adopt_children(s1, note.id, note.children_ids)->Ok_0;
                lemma_insert_deps_keeps(s2, edges_into(note));
                let s3 = insert_deps(s2, edges_into(note))->Ok_0;
                lemma_insert_deps_keeps(s3, edges_out_of(note));
            }
        },
        _ => {},
    }
}

/// Applying an action leaves the redo queue and the peers alone.
pub proof fn lemma_apply_keeps_redo(s: StoreV, a: ActionV)
    ensures
        apply_action(s, a) is Ok ==> apply_action(s, a)->Ok_0.redo == s.redo && apply_action(
            s,
            a,
        )->Ok_0.peers == s.peers && apply_action(s, a)->Ok_0.peer_id == s.peer_id,
{
}

/// Applying an action advances the clock by one.
pub proof fn lemma_apply_clock(s: StoreV, a: ActionV)
    ensures
        apply_action(s, a) is Ok ==> apply_action(s, a)->Ok_0.clock == s.clock + 1,
{
}

/// Redoing advances the clock by at most one.
pub proof fn lemma_redo_clock(s: StoreV)
    ensures
        redo(s) is Ok ==> redo(s)->Ok_0.clock <= s.clock + 1,
{
    if s.redo.len() > 0 {
        lemma_apply_clock(s, s.redo.last());
    }
}

/// Undoing a recorded change rewinds the clock to the length of the shorter log.
pub proof fn lemma_undo_clock(s: StoreV)
    requires
        store_wf(s),
    ensures
        undo(s) is Ok ==> undo(s)->Ok_0.clock == undo(s)->Ok_0.mutations.len(),
        undo(s) is Ok && s.mutations.len() > 0 ==> undo(s)->Ok_0.mutations.len() == s.mutations.len() - 1,
        undo(s) is Ok && s.mutations.len() == 0 ==> undo(s)->Ok_0 == s,
{
    if s.mutations.len() > 0 {
        lemma_revert_keeps_log(s, s.mutations.last());
    }
}

// ---------------------------------------------------------------- laws of keep

pub proof fn lemma_keep_push<A>(s: Seq<A>, f: spec_fn(A) -> bool, x: A)
    ensures
        keep(s.push(x), f) == (if f(x) {
            keep(s, f).push(x)
        } else {
            keep(s, f)
        }),
{
    assert(s.push(x).drop_last() =~= s);
}

pub proof fn lemma_push_contains<A>(r: Seq<A>, y: A, x: A)
    ensures
        r.push(y).contains(x) <==> (r.contains(x) || x == y),
{
    if r.push(y).contains(x) {
        let i = choose|i: int| 0 <= i < r.push(y).len() && r.push(y)[i] == x;
        if i < r.len() {
            assert(r[i] == x);
        }
    }
    if r.contains(x) {
        let i = choose|i: int| 0 <= i < r.len() && r[i] == x;
        assert(r.push(y)[i] == x);
    }
    assert(r.push(y)[r.len() as int] == y);
}

pub proof fn lemma_keep_contains<A>(s: Seq<A>, f: spec_fn(A) -> bool, x: A)
    ensures
        keep(s, f).contains(x) <==> (s.contains(x) && f(x)),
    decreases s.len(),
{
    if s.len() > 0 {
        lemma_keep_contains(s.drop_last(), f, x);
        assert(s =~= s.drop_last().push(s.last()));
        lemma_push_contains(s.drop_last(), s.last(), x);
        lemma_push_contains(keep(s.drop_last(), f), s.last(), x);
    }
}

pub proof fn lemma_keep_ext<A>(s: Seq<A>, f: spec_fn(A) -> bool, g: spec_fn(A) -> bool)
    requires
        forall|i: int| 0 <= i < s.len() ==> f(#[trigger] s[i]) == g(s[i]),
    ensures
        keep(s, f) == keep(s, g),
    decreases s.len(),
{
    if s.len() > 0 {
        lemma_keep_ext(s.drop_last(), f, g);
        assert(f(s[s.len() - 1]) == g(s[s.len() - 1]));
    }
}

pub proof fn lemma_keep_all<A>(s: Seq<A>, f: spec_fn(A) -> bool)
    requires
        forall|i: int| 0 <= i < s.len() ==> f(#[trigger] s[i]),
    ensures
        keep(s, f) == s,
    decreases s.len(),
{
    if s.len() > 0 {
        lemma_keep_all(s.drop_last(), f);
        assert(f(s[s.len() - 1]));
        assert(s.drop_last().push(s.last()) =~= s);
    }
}

pub proof fn lemma_keep_len<A>(s: Seq<A>, f: spec_fn(A) -> bool)
    ensures
        keep(s, f).len() <= s.len(),
    decreases s.len(),
{
    if s.len() > 0 {
        lemma_keep_len(s.drop_last(), f);
    }
}

} // verus!
