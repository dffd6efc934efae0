//! What every accepted change keeps of the store's structure: no note blocks
//! itself through a chain of dependencies, no note is its own ancestor, and
//! a deletion takes away exactly the deleted note's subtree.
use vstd::prelude::*;

use crate::entities::{ActionV, NoteId};
use crate::rank::{lemma_text_lt_irreflexive, lemma_text_lt_transitive, rank_lt, text_lt};
use crate::graph::{acyclic, is_path, lemma_acyclic_subset, lemma_push_keeps_acyclic, path_step, reachable};
use crate::storage::model::{
    apply_action, blockees_of, blockers_of, children_of, create_note, created_note, has_row,
    in_subtree, insert_pos, lemma_insert_pos_range, lemma_row_of, lemma_sort_idx_bound, note_view,
    rank_order, row_of, sort_idx, unique_ids, keep, lemma_keep_contains, lemma_parent_edges_contains,
    lemma_parent_edges_from_rows, lemma_push_contains, parent_edges, redo, store_wf, RowV, StoreV,
};

verus! {

/// Every path starts with an edge out of its first note.
pub proof fn lemma_reachable_has_out_edge(e: Seq<(NoteId, NoteId)>, a: NoteId, b: NoteId)
    requires
        reachable(e, a, b),
    ensures
        exists|c: NoteId| #[trigger] e.contains((a, c)),
{
    let p = choose|p: Seq<NoteId>| #[trigger] is_path(e, p) && p[0] == a && p.last() == b;
    assert(path_step(e, p, 0));
    assert(e.contains((a, p[1])));
}

/// The hierarchy of `t` lies within `e` when the edge of every row of `t`
/// that has a parent is one of `e`.
proof fn lemma_parent_edges_within(t: Seq<RowV>, e: Seq<(NoteId, NoteId)>)
    requires
        forall|j: int|
            0 <= j < t.len() && (#[trigger] t[j]).parent is Some ==> e.contains(
                (t[j].parent->0, t[j].id),
            ),
    ensures
        forall|x: (NoteId, NoteId)| parent_edges(t).contains(x) ==> e.contains(x),
{
    assert forall|x: (NoteId, NoteId)| parent_edges(t).contains(x) implies e.contains(x) by {
        lemma_parent_edges_from_rows(t, x);
        let j = choose|j: int|
            0 <= j < t.len() && (#[trigger] t[j]).id == x.1 && t[j].parent == Some(x.0);
        assert(t[j].parent is Some);
    }
}

/// Rows with the same ids and parents, place by place, keep the hierarchy acyclic.
proof fn lemma_same_parents_acyclic(rows: Seq<RowV>, t: Seq<RowV>)
    requires
        acyclic(parent_edges(rows)),
        t.len() == rows.len(),
        forall|j: int|
            0 <= j < t.len() ==> (#[trigger] t[j]).id == rows[j].id && t[j].parent
                == rows[j].parent,
    ensures
        acyclic(parent_edges(t)),
{
    assert forall|j: int| 0 <= j < t.len() && (#[trigger] t[j]).parent is Some implies parent_edges(
        rows,
    ).contains((t[j].parent->0, t[j].id)) by {
        lemma_parent_edges_contains(rows, j);
    }
    lemma_parent_edges_within(t, parent_edges(rows));
    lemma_acyclic_subset(parent_edges(t), parent_edges(rows));
}

/// Keeping some of the rows keeps the hierarchy acyclic.
proof fn lemma_keep_rows_acyclic(rows: Seq<RowV>, f: spec_fn(RowV) -> bool)
    requires
        acyclic(parent_edges(rows)),
    ensures
        acyclic(parent_edges(keep(rows, f))),
{
    let t = keep(rows, f);
    assert forall|j: int| 0 <= j < t.len() && (#[trigger] t[j]).parent is Some implies parent_edges(
        rows,
    ).contains((t[j].parent->0, t[j].id)) by {
        assert(t.contains(t[j]));
        lemma_keep_contains(rows, f, t[j]);
        let i = choose|i: int| 0 <= i < rows.len() && rows[i] == t[j];
        lemma_parent_edges_contains(rows, i);
    }
    lemma_parent_edges_within(t, parent_edges(rows));
    lemma_acyclic_subset(parent_edges(t), parent_edges(rows));
}

/// Keeping some of the edges keeps a graph acyclic.
proof fn lemma_keep_edges_acyclic(e: Seq<(NoteId, NoteId)>, f: spec_fn((NoteId, NoteId)) -> bool)
    requires
        acyclic(e),
    ensures
        acyclic(keep(e, f)),
{
    assert forall|x: (NoteId, NoteId)| keep(e, f).contains(x) implies e.contains(x) by {
        lemma_keep_contains(e, f, x);
    }
    lemma_acyclic_subset(keep(e, f), e);
}

/// No change that a valid store accepts closes a chain of dependencies into
/// a cycle: no note comes to block itself, directly or through others.
pub proof fn law_change_keeps_dependencies_acyclic(s: StoreV, a: ActionV, t: StoreV)
    requires
        store_wf(s),
        acyclic(s.deps),
        apply_action(s, a) == Ok::<StoreV, crate::result::ErrorV>(t),
    ensures
        acyclic(t.deps),
{
    match a {
        ActionV::AddDependency { blocker, blockee } => {
            lemma_push_keeps_acyclic(s.deps, blocker, blockee);
        },
        ActionV::RemoveDependency { blocker, blockee } => {
            lemma_keep_edges_acyclic(s.deps, crate::storage::model::not_edge((blocker, blockee)));
        },
        ActionV::DeleteNote { note, .. } => {
            let id = note.id;
            lemma_keep_edges_acyclic(
                s.deps,
                |e: (NoteId, NoteId)| !in_subtree(s, id, e.0) && !in_subtree(s, id, e.1),
            );
        },
        _ => {},
    }
}

/// A redo that a valid store accepts keeps its dependencies acyclic.
pub proof fn law_redo_keeps_dependencies_acyclic(s: StoreV, t: StoreV)
    requires
        store_wf(s),
        acyclic(s.deps),
        redo(s) == Ok::<StoreV, crate::result::ErrorV>(t),
    ensures
        acyclic(t.deps),
{
    if s.redo.len() > 0 {
        let t1 = apply_action(s, s.redo.last())->Ok_0;
        law_change_keeps_dependencies_acyclic(s, s.redo.last(), t1);
    }
}

/// No change that a valid store accepts makes a note its own ancestor (or
/// its own parent).
pub proof fn law_change_keeps_hierarchy_acyclic(s: StoreV, a: ActionV, t: StoreV)
    requires
        store_wf(s),
        acyclic(parent_edges(s.notes)),
        apply_action(s, a) == Ok::<StoreV, crate::result::ErrorV>(t),
    ensures
        acyclic(parent_edges(t.notes)),
{
    let rows = s.notes;
    match a {
        ActionV::CreateNote { id, title, description, parent } => {
            let row = t.notes.last();
            assert(t.notes == rows.push(row));
            assert(t.notes.drop_last() =~= rows);
            match parent {
                None => {
                    assert(parent_edges(t.notes) == parent_edges(rows));
                },
                Some(p) => {
                    assert(parent_edges(t.notes) == parent_edges(rows).push((p, id)));
                    if reachable(parent_edges(rows), id, p) {
                        lemma_reachable_has_out_edge(parent_edges(rows), id, p);
                        let c = choose|c: NoteId| #[trigger] parent_edges(rows).contains((id, c));
                        lemma_parent_edges_from_rows(rows, (id, c));
                        let i = choose|i: int|
                            0 <= i < rows.len() && (#[trigger] rows[i]).id == c && rows[i].parent
                                == Some(id);
                        assert(has_row(rows, id));
                    }
                    lemma_push_keeps_acyclic(parent_edges(rows), p, id);
                },
            }
        },
        ActionV::ChangeParent { id, old_parent, new_parent } => {
            let t_rows = t.notes;
            match new_parent {
                None => {
                    assert forall|j: int|
                        0 <= j < t_rows.len() && (#[trigger] t_rows[j]).parent
                            is Some implies parent_edges(rows).contains(
                        (t_rows[j].parent->0, t_rows[j].id),
                    ) by {
                        lemma_parent_edges_contains(rows, j);
                    }
                    lemma_parent_edges_within(t_rows, parent_edges(rows));
                    lemma_acyclic_subset(parent_edges(t_rows), parent_edges(rows));
                },
                Some(p) => {
                    let e2 = parent_edges(rows).push((p, id));
                    assert forall|j: int|
                        0 <= j < t_rows.len() && (#[trigger] t_rows[j]).parent
                            is Some implies e2.contains((t_rows[j].parent->0, t_rows[j].id)) by {
                        lemma_push_contains(parent_edges(rows), (p, id), (t_rows[j].parent->0, t_rows[j].id));
                        if rows[j].id != id {
                            lemma_parent_edges_contains(rows, j);
                        }
                    }
                    lemma_parent_edges_within(t_rows, e2);
                    lemma_push_keeps_acyclic(parent_edges(rows), p, id);
                    lemma_acyclic_subset(parent_edges(t_rows), e2);
                },
            }
        },
        ActionV::DeleteNote { note, .. } => {
            let id = note.id;
            lemma_keep_rows_acyclic(rows, |r: RowV| !in_subtree(s, id, r.id));
        },
        ActionV::SetCompleted { .. } | ActionV::UpdateTitle { .. }
        | ActionV::UpdateDescription { .. } | ActionV::ReorderNote { .. } => {
            lemma_same_parents_acyclic(rows, t.notes);
        },
        _ => {},
    }
}

/// A redo that a valid store accepts keeps its hierarchy acyclic.
pub proof fn law_redo_keeps_hierarchy_acyclic(s: StoreV, t: StoreV)
    requires
        store_wf(s),
        acyclic(parent_edges(s.notes)),
        redo(s) == Ok::<StoreV, crate::result::ErrorV>(t),
    ensures
        acyclic(parent_edges(t.notes)),
{
    if s.redo.len() > 0 {
        let t1 = apply_action(s, s.redo.last())->Ok_0;
        law_change_keeps_hierarchy_acyclic(s, s.redo.last(), t1);
    }
}

/// Deleting a note takes away the note and all its descendants, with every
/// dependency that names one of them, and nothing else.
pub proof fn law_delete_takes_subtree(s: StoreV, id: NoteId, t: StoreV)
    requires
        crate::storage::model::apply_delete_note(s, id) == Ok::<StoreV, crate::result::ErrorV>(t),
    ensures
        forall|n: NoteId| has_row(t.notes, n) <==> has_row(s.notes, n) && !in_subtree(s, id, n),
        forall|e: (NoteId, NoteId)|
            t.deps.contains(e) <==> s.deps.contains(e) && !in_subtree(s, id, e.0) && !in_subtree(
                s,
                id,
                e.1,
            ),
{
    let f = |r: RowV| !in_subtree(s, id, r.id);
    let g = |e: (NoteId, NoteId)| !in_subtree(s, id, e.0) && !in_subtree(s, id, e.1);
    assert(t.notes == keep(s.notes, f));
    assert(t.deps == keep(s.deps, g));
    assert forall|n: NoteId| has_row(t.notes, n) <==> has_row(s.notes, n) && !in_subtree(
        s,
        id,
        n,
    ) by {
        if has_row(t.notes, n) {
            let j = choose|j: int| 0 <= j < t.notes.len() && (#[trigger] t.notes[j]).id == n;
            assert(t.notes.contains(t.notes[j]));
            lemma_keep_contains(s.notes, f, t.notes[j]);
            let i = choose|i: int| 0 <= i < s.notes.len() && s.notes[i] == t.notes[j];
            assert(s.notes[i].id == n);
        }
        if has_row(s.notes, n) && !in_subtree(s, id, n) {
            let i = choose|i: int| 0 <= i < s.notes.len() && (#[trigger] s.notes[i]).id == n;
            assert(s.notes.contains(s.notes[i]));
            lemma_keep_contains(s.notes, f, s.notes[i]);
            let j = choose|j: int| 0 <= j < t.notes.len() && t.notes[j] == s.notes[i];
            assert(t.notes[j].id == n);
        }
    }
    assert forall|e: (NoteId, NoteId)|
        t.deps.contains(e) <==> s.deps.contains(e) && !in_subtree(s, id, e.0) && !in_subtree(
            s,
            id,
            e.1,
        ) by {
        lemma_keep_contains(s.deps, g, e);
    }
}

/// A note that no row names as its parent has no children.
pub proof fn lemma_no_children(rows: Seq<RowV>, id: NoteId)
    requires
        forall|i: int| 0 <= i < rows.len() ==> (#[trigger] rows[i]).parent != Some(id),
    ensures
        children_of(rows, id) == Seq::<NoteId>::empty(),
    decreases rows.len(),
{
    if rows.len() > 0 {
        assert(rows[rows.len() - 1].parent != Some(id));
        lemma_no_children(rows.drop_last(), id);
    }
}

/// A note that no edge names is neither blocked nor blocking.
proof fn lemma_no_edges(deps: Seq<(NoteId, NoteId)>, id: NoteId)
    requires
        forall|i: int| 0 <= i < deps.len() ==> (#[trigger] deps[i]).0 != id && deps[i].1 != id,
    ensures
        blockees_of(deps, id) == Seq::<NoteId>::empty(),
        blockers_of(deps, id) == Seq::<NoteId>::empty(),
    decreases deps.len(),
{
    if deps.len() > 0 {
        assert(deps[deps.len() - 1].0 != id);
        lemma_no_edges(deps.drop_last(), id);
    }
}

/// A note reads back, once created, as it was created: with its title,
/// description and parent, not completed, and with no children and no
/// dependencies.
pub proof fn law_created_note_reads_back(
    s: StoreV,
    id: NoteId,
    title: Seq<char>,
    description: Option<Seq<char>>,
    parent: Option<NoteId>,
    t: StoreV,
)
    requires
        store_wf(s),
        create_note(s, id, title, description, parent) == Ok::<StoreV, crate::result::ErrorV>(t),
    ensures
        has_row(t.notes, id),
        note_view(t, row_of(t.notes, id)) == created_note(id, title, description, parent),
{
    let row = t.notes.last();
    assert(t.notes == s.notes.push(row));
    assert forall|i: int| 0 <= i < t.notes.len() implies (#[trigger] t.notes[i]).parent != Some(
        id,
    ) by {
        if i < s.notes.len() {
            assert(t.notes[i] == s.notes[i]);
        }
    }
    assert(unique_ids(t.notes)) by {
        assert forall|i: int, j: int|
            0 <= i < t.notes.len() && 0 <= j < t.notes.len() && i != j implies #[trigger] t.notes[i].id
            != #[trigger] t.notes[j].id by {
            if i < s.notes.len() && j < s.notes.len() {
                assert(t.notes[i] == s.notes[i] && t.notes[j] == s.notes[j]);
            } else if i < s.notes.len() {
                assert(t.notes[i] == s.notes[i]);
            } else if j < s.notes.len() {
                assert(t.notes[j] == s.notes[j]);
            }
        }
    }
    lemma_row_of(t.notes, s.notes.len() as int);
    lemma_no_children(t.notes, id);
    assert forall|i: int| 0 <= i < t.deps.len() implies (#[trigger] t.deps[i]).0 != id
        && t.deps[i].1 != id by {
        assert(s.deps.contains(s.deps[i]));
    }
    lemma_no_edges(t.deps, id);
}

// ---------------------------------------------------------------- order

proof fn lemma_rank_lt_order(a: Option<Seq<char>>, b: Option<Seq<char>>, c: Option<Seq<char>>)
    ensures
        !rank_lt(a, a),
        rank_lt(a, b) && rank_lt(b, c) ==> rank_lt(a, c),
{
    if let Some(x) = a {
        lemma_text_lt_irreflexive(x);
    }
    if rank_lt(a, b) && rank_lt(b, c) {
        if a is Some {
            lemma_text_lt_transitive(a->0, b->0, c->0);
        }
    }
}

/// The indices `s` list their rows in rank order: no row comes after a row
/// of greater rank.
pub open spec fn in_rank_order(rows: Seq<RowV>, s: Seq<usize>) -> bool {
    forall|i: int, j: int|
        0 <= i < j < s.len() ==> !rank_lt(rows[#[trigger] s[j] as int].rank, rows[#[trigger] s[i] as int].rank)
}

/// Where `insert_pos` stops, every earlier row ranks no higher than row `k`.
proof fn lemma_insert_pos_before(rows: Seq<RowV>, s: Seq<usize>, k: usize, i: int)
    requires
        0 <= i <= s.len(),
    ensures
        forall|m: int|
            i <= m < insert_pos(rows, s, k, i) ==> !rank_lt(rows[k as int].rank, rows[s[m] as int].rank),
        insert_pos(rows, s, k, i) < s.len() ==> rank_lt(rows[k as int].rank, rows[s[insert_pos(rows, s, k, i)] as int].rank),
    decreases s.len() - i,
{
    if i < s.len() && !rank_lt(rows[k as int].rank, rows[s[i] as int].rank) {
        lemma_insert_pos_before(rows, s, k, i + 1);
    }
}

proof fn lemma_sort_idx_sorted(rows: Seq<RowV>, n: nat)
    requires
        n <= rows.len(),
        n <= usize::MAX,
    ensures
        in_rank_order(rows, sort_idx(rows, n)),
        sort_idx(rows, n).no_duplicates(),
    decreases n,
{
    if n > 0 {
        let s = sort_idx(rows, (n - 1) as nat);
        let k = (n - 1) as usize;
        lemma_sort_idx_sorted(rows, (n - 1) as nat);
        lemma_sort_idx_bound(rows, (n - 1) as nat);
        let p = insert_pos(rows, s, k, 0);
        lemma_insert_pos_range(rows, s, k, 0);
        lemma_insert_pos_before(rows, s, k, 0);
        let t = s.insert(p, k);
        assert(t == sort_idx(rows, n));
        assert forall|i: int, j: int| 0 <= i < j < t.len() implies !rank_lt(
            rows[#[trigger] t[j] as int].rank,
            rows[#[trigger] t[i] as int].rank,
        ) by {
            if j < p {
                assert(t[i] == s[i] && t[j] == s[j]);
            } else if j == p {
                assert(t[i] == s[i] && t[j] == k);
            } else if i < p {
                assert(t[i] == s[i] && t[j] == s[j - 1]);
            } else if i == p {
                // row k ranks below s[p]; a row ranking below k would rank below s[p]
                assert(t[i] == k && t[j] == s[j - 1]);
                lemma_rank_lt_order(rows[s[j - 1] as int].rank, rows[k as int].rank, rows[s[p] as int].rank);
                if j - 1 > p {
                    assert(!rank_lt(rows[s[j - 1] as int].rank, rows[s[p] as int].rank));
                }
            } else {
                assert(t[i] == s[i - 1] && t[j] == s[j - 1]);
            }
        }
        assert forall|i: int, j: int| 0 <= i < t.len() && 0 <= j < t.len() && i != j implies t[i] != t[j] by {
            if i != p && j != p {
                let a = if i < p { i } else { i - 1 };
                let b = if j < p { j } else { j - 1 };
                assert(t[i] == s[a] && t[j] == s[b]);
            } else if i == p {
                let b = if j < p { j } else { j - 1 };
                assert(t[i] == k && t[j] == s[b] && s[b] < k);
            } else {
                let a = if i < p { i } else { i - 1 };
                assert(t[j] == k && t[i] == s[a] && s[a] < k);
            }
        }
    }
}

/// The store lists its notes in rank order, each row exactly once: the
/// order is a permutation of the rows in which no note comes after a note
/// of greater rank (a note without a rank first), so that a note of lower
/// rank is listed before one of greater rank.
pub proof fn law_notes_listed_in_rank_order(s: StoreV)
    requires
        s.notes.len() <= usize::MAX,
    ensures
        rank_order(s).len() == s.notes.len(),
        forall|i: int| 0 <= i < s.notes.len() ==> (#[trigger] rank_order(s)[i]) < s.notes.len(),
        rank_order(s).no_duplicates(),
        in_rank_order(s.notes, rank_order(s)),
        forall|p: int, q: int|
            0 <= p < s.notes.len() && 0 <= q < s.notes.len() && rank_lt(
                s.notes[#[trigger] rank_order(s)[p] as int].rank,
                s.notes[#[trigger] rank_order(s)[q] as int].rank,
            ) ==> p < q,
{
    lemma_sort_idx_bound(s.notes, s.notes.len());
    lemma_sort_idx_sorted(s.notes, s.notes.len());
    let o = rank_order(s);
    assert forall|p: int, q: int|
        0 <= p < s.notes.len() && 0 <= q < s.notes.len() && rank_lt(
            s.notes[#[trigger] o[p] as int].rank,
            s.notes[#[trigger] o[q] as int].rank,
        ) implies p < q by {
        lemma_rank_lt_order(s.notes[o[p] as int].rank, s.notes[o[p] as int].rank, s.notes[o[p] as int].rank);
        if q < p {
            assert(!rank_lt(s.notes[o[p] as int].rank, s.notes[o[q] as int].rank));
        }
    }
}

} // verus!
