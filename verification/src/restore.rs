//! Undoing a deletion: the log keeps the deleted note as it read, with its
//! rank, and undoing puts it back with its parent and its dependencies.
use vstd::prelude::*;

use crate::entities::{ActionV, NoteId, NoteV};
use crate::invariants::{lemma_no_children, lemma_reachable_has_out_edge};
use crate::invariants::law_delete_takes_subtree;
use crate::result::ErrorV;
use crate::storage::model::{
    adopt_children, apply_delete_note, blockees_of, blockers_of, children_of, edges_into,
    edges_out_of, has_row, in_subtree, insert_dep, insert_deps, keep, lemma_keep_contains,
    lemma_keep_unique_ids, lemma_parent_edges_from_rows, lemma_push_contains, lemma_row_of,
    note_view, parent_edges, restore_note, revert_action, row_of, store_wf, undo, unique_ids, RowV,
    StoreV,
};

verus! {

/// The blockees and blockers of `x` in `a + b`: those in `a`, then those in `b`.
proof fn lemma_relations_concat(a: Seq<(NoteId, NoteId)>, b: Seq<(NoteId, NoteId)>, x: NoteId)
    ensures
        blockees_of(a + b, x) == blockees_of(a, x) + blockees_of(b, x),
        blockers_of(a + b, x) == blockers_of(a, x) + blockers_of(b, x),
    decreases b.len(),
{
    if b.len() == 0 {
        assert(a + b =~= a);
        assert(blockees_of(a, x) + blockees_of(b, x) =~= blockees_of(a, x));
        assert(blockers_of(a, x) + blockers_of(b, x) =~= blockers_of(a, x));
    } else {
        lemma_relations_concat(a, b.drop_last(), x);
        assert((a + b).drop_last() =~= a + b.drop_last());
        assert((a + b).last() == b.last());
        assert((blockees_of(a, x) + blockees_of(b.drop_last(), x)).push(b.last().1) =~= blockees_of(
            a,
            x,
        ) + blockees_of(b.drop_last(), x).push(b.last().1));
        assert((blockers_of(a, x) + blockers_of(b.drop_last(), x)).push(b.last().0) =~= blockers_of(
            a,
            x,
        ) + blockers_of(b.drop_last(), x).push(b.last().0));
    }
}

/// Edges that do not start at `x` give it no blockees.
proof fn lemma_no_blockees(e: Seq<(NoteId, NoteId)>, x: NoteId)
    requires
        forall|i: int| 0 <= i < e.len() ==> (#[trigger] e[i]).0 != x,
    ensures
        blockees_of(e, x) == Seq::<NoteId>::empty(),
    decreases e.len(),
{
    if e.len() > 0 {
        assert(e[e.len() - 1].0 != x);
        lemma_no_blockees(e.drop_last(), x);
    }
}

/// Edges that do not end at `x` give it no blockers.
proof fn lemma_no_blockers(e: Seq<(NoteId, NoteId)>, x: NoteId)
    requires
        forall|i: int| 0 <= i < e.len() ==> (#[trigger] e[i]).1 != x,
    ensures
        blockers_of(e, x) == Seq::<NoteId>::empty(),
    decreases e.len(),
{
    if e.len() > 0 {
        assert(e[e.len() - 1].1 != x);
        lemma_no_blockers(e.drop_last(), x);
    }
}

/// `b` blocks `x` exactly where the edge `(b, x)` is there, and `x` blocks `b`
/// exactly where `(x, b)` is; with no edge twice, no note is listed twice.
proof fn lemma_relations_contain(e: Seq<(NoteId, NoteId)>, x: NoteId, b: NoteId)
    ensures
        blockers_of(e, x).contains(b) <==> e.contains((b, x)),
        blockees_of(e, x).contains(b) <==> e.contains((x, b)),
        e.no_duplicates() ==> blockers_of(e, x).no_duplicates() && blockees_of(e, x).no_duplicates(),
    decreases e.len(),
{
    if e.len() > 0 {
        let d = e.drop_last();
        let l = e.last();
        lemma_relations_contain(d, x, b);
        lemma_relations_contain(d, x, l.0);
        lemma_relations_contain(d, x, l.1);
        assert(d.push(l) =~= e);
        lemma_push_contains(d, l, (b, x));
        lemma_push_contains(d, l, (x, b));
        lemma_push_contains(blockers_of(d, x), l.0, b);
        lemma_push_contains(blockees_of(d, x), l.1, b);
        if e.no_duplicates() {
            assert(d.no_duplicates());
            if d.contains(l) {
                let k = choose|k: int| 0 <= k < d.len() && d[k] == l;
                assert(e[k] == e[e.len() - 1]);
            }
            let bl = blockers_of(d, x);
            let be = blockees_of(d, x);
            if l.1 == x {
                assert forall|i: int, j: int|
                    0 <= i < bl.push(l.0).len() && 0 <= j < bl.push(l.0).len() && i != j implies bl.push(
                    l.0,
                )[i] != bl.push(l.0)[j] by {
                    if i == bl.len() {
                        assert(bl.contains(bl[j]));
                    } else if j == bl.len() {
                        assert(bl.contains(bl[i]));
                    }
                }
            }
            if l.0 == x {
                assert forall|i: int, j: int|
                    0 <= i < be.push(l.1).len() && 0 <= j < be.push(l.1).len() && i != j implies be.push(
                    l.1,
                )[i] != be.push(l.1)[j] by {
                    if i == be.len() {
                        assert(be.contains(be[j]));
                    } else if j == be.len() {
                        assert(be.contains(be[i]));
                    }
                }
            }
        }
    }
}

/// The edges out of a note list exactly the notes it blocks, from it.
proof fn lemma_blockees_of_edges_out(n: NoteV)
    ensures
        blockees_of(edges_out_of(n), n.id) == n.notes_this_blocks,
        blockers_of(edges_into(n), n.id) == n.notes_blocking_this,
    decreases n.notes_this_blocks.len() + n.notes_blocking_this.len(),
{
    if n.notes_this_blocks.len() > 0 {
        let m = NoteV { notes_this_blocks: n.notes_this_blocks.drop_last(), ..n };
        lemma_blockees_of_edges_out(m);
        assert(edges_out_of(n).drop_last() =~= edges_out_of(m));
        assert(edges_out_of(n).last() == (n.id, n.notes_this_blocks.last()));
        assert(m.notes_this_blocks.push(n.notes_this_blocks.last()) =~= n.notes_this_blocks);
    } else {
        assert(edges_out_of(n) =~= Seq::<(NoteId, NoteId)>::empty());
        assert(n.notes_this_blocks =~= Seq::<NoteId>::empty());
    }
    if n.notes_blocking_this.len() > 0 {
        let m = NoteV { notes_blocking_this: n.notes_blocking_this.drop_last(), ..n };
        lemma_blockees_of_edges_out(m);
        assert(edges_into(n).drop_last() =~= edges_into(m));
        assert(edges_into(n).last() == (n.notes_blocking_this.last(), n.id));
        assert(m.notes_blocking_this.push(n.notes_blocking_this.last()) =~= n.notes_blocking_this);
    } else {
        assert(edges_into(n) =~= Seq::<(NoteId, NoteId)>::empty());
        assert(n.notes_blocking_this =~= Seq::<NoteId>::empty());
    }
}

/// Inserting edges that are new, distinct and between existing notes appends them.
proof fn lemma_insert_deps_appends(s: StoreV, es: Seq<(NoteId, NoteId)>)
    requires
        forall|i: int|
            0 <= i < es.len() ==> has_row(s.notes, (#[trigger] es[i]).0) && has_row(
                s.notes,
                es[i].1,
            ) && !s.deps.contains(es[i]),
        es.no_duplicates(),
    ensures
        insert_deps(s, es) == Ok::<StoreV, ErrorV>(StoreV { deps: s.deps + es, ..s }),
    decreases es.len(),
{
    if es.len() == 0 {
        assert(s.deps + es =~= s.deps);
    } else {
        let d = es.drop_last();
        let l = es.last();
        assert forall|i: int| 0 <= i < d.len() implies has_row(s.notes, (#[trigger] d[i]).0)
            && has_row(s.notes, d[i].1) && !s.deps.contains(d[i]) by {
            assert(d[i] == es[i]);
        }
        lemma_insert_deps_appends(s, d);
        let s1 = StoreV { deps: s.deps + d, ..s };
        assert(!s1.deps.contains(l)) by {
            if s1.deps.contains(l) {
                let k = choose|k: int| 0 <= k < s1.deps.len() && s1.deps[k] == l;
                if k < s.deps.len() {
                    assert(s.deps[k] == l);
                    assert(s.deps.contains(l));
                } else {
                    assert(es[k - s.deps.len()] == es[es.len() - 1]);
                }
            }
        }
        assert(insert_dep(s1, l) == Ok::<StoreV, ErrorV>(StoreV { deps: s1.deps.push(l), ..s1 }));
        assert(s1.deps.push(l) =~= s.deps + es);
    }
}

/// Undoing the deletion of a note that has no children (nor a dependency on
/// itself, which no change creates) gives back the same notes, the note as it
/// read before it was deleted and with its rank, the same dependencies, and
/// the log and clock as they were.
pub proof fn law_undo_delete_restores_note(s: StoreV, x: NoteId)
    requires
        store_wf(s),
        has_row(s.notes, x),
        forall|i: int| 0 <= i < s.notes.len() ==> (#[trigger] s.notes[i]).parent != Some(x),
        !s.deps.contains((x, x)),
    ensures
        ({
            let t = apply_delete_note(s, x)->Ok_0;
            let u = undo(t)->Ok_0;
            &&& apply_delete_note(s, x) is Ok
            &&& undo(t) is Ok
            &&& forall|n: NoteId| has_row(u.notes, n) == has_row(s.notes, n)
            &&& note_view(u, row_of(u.notes, x)) == note_view(s, row_of(s.notes, x))
            &&& row_of(u.notes, x).rank == row_of(s.notes, x).rank
            &&& forall|e: (NoteId, NoteId)| u.deps.contains(e) == s.deps.contains(e)
            &&& u.mutations == s.mutations
            &&& u.clock == s.clock
            &&& u.peers == s.peers
        }),
{
    let nv = note_view(s, row_of(s.notes, x));
    let t = apply_delete_note(s, x)->Ok_0;
    // Only `x` itself is in its subtree: nothing hangs below it.
    assert forall|n: NoteId| in_subtree(s, x, n) <==> n == x by {
        if reachable_below(s, x, n) {
            lemma_reachable_has_out_edge(parent_edges(s.notes), x, n);
            let c = choose|c: NoteId| #[trigger] parent_edges(s.notes).contains((x, c));
            lemma_parent_edges_from_rows(s.notes, (x, c));
            let i = choose|i: int|
                0 <= i < s.notes.len() && (#[trigger] s.notes[i]).id == c && s.notes[i].parent
                    == Some(x);
            assert(s.notes[i].parent != Some(x));
        }
    }
    law_delete_takes_subtree(s, x, t);
    let i0 = choose|i: int| 0 <= i < s.notes.len() && (#[trigger] s.notes[i]).id == x;
    lemma_row_of(s.notes, i0);
    let row = row_of(s.notes, x);
    assert(row == s.notes[i0]);
    lemma_no_children(s.notes, x);
    assert(nv.children_ids == Seq::<NoteId>::empty());
    // The log's last change is the deletion, with the note as it read.
    assert(t.mutations.last() == (ActionV::DeleteNote { note: nv, rank: row.rank }));
    assert(!has_row(t.notes, x));
    let row2 = RowV {
        id: x,
        title: nv.title,
        description: nv.description,
        completed: nv.completed,
        parent: nv.parent_id,
        rank: row.rank,
    };
    let s1 = StoreV { notes: t.notes.push(row2), ..t };
    assert forall|n: NoteId| has_row(s1.notes, n) <==> has_row(t.notes, n) || n == x by {
        if has_row(s1.notes, n) {
            let k = choose|k: int| 0 <= k < s1.notes.len() && (#[trigger] s1.notes[k]).id == n;
            if k < t.notes.len() {
                assert(t.notes[k] == s1.notes[k]);
            }
        }
        if has_row(t.notes, n) {
            let k = choose|k: int| 0 <= k < t.notes.len() && (#[trigger] t.notes[k]).id == n;
            assert(s1.notes[k] == t.notes[k]);
        }
        if n == x {
            assert(s1.notes[t.notes.len() as int].id == x);
        }
    }
    if nv.parent_id is Some {
        let p = nv.parent_id->0;
        assert(has_row(s.notes, p));
        assert(p != x);
    }
    assert(adopt_children(s1, x, nv.children_ids) == Ok::<StoreV, ErrorV>(s1));
    // The edges into the note go back first, then the edges out of it.
    let ei = edges_into(nv);
    let eo = edges_out_of(nv);
    lemma_relations_contain(s.deps, x, x);
    assert forall|i: int| 0 <= i < ei.len() implies has_row(s1.notes, (#[trigger] ei[i]).0)
        && has_row(s1.notes, ei[i].1) && !s1.deps.contains(ei[i]) by {
        let b = nv.notes_blocking_this[i];
        assert(ei[i] == (b, x));
        assert(nv.notes_blocking_this.contains(b));
        lemma_relations_contain(s.deps, x, b);
        assert(b != x);
    }
    assert(ei.no_duplicates()) by {
        assert forall|i: int, j: int| 0 <= i < ei.len() && 0 <= j < ei.len() && i != j implies ei[i]
            != ei[j] by {
            assert(ei[i].0 == nv.notes_blocking_this[i]);
            assert(ei[j].0 == nv.notes_blocking_this[j]);
        }
    }
    lemma_insert_deps_appends(s1, ei);
    let s2 = StoreV { deps: s1.deps + ei, ..s1 };
    assert forall|i: int| 0 <= i < eo.len() implies has_row(s2.notes, (#[trigger] eo[i]).0)
        && has_row(s2.notes, eo[i].1) && !s2.deps.contains(eo[i]) by {
        let b = nv.notes_this_blocks[i];
        assert(eo[i] == (x, b));
        assert(nv.notes_this_blocks.contains(b));
        lemma_relations_contain(s.deps, x, b);
        assert(b != x);
        if s2.deps.contains(eo[i]) {
            let k = choose|k: int| 0 <= k < s2.deps.len() && s2.deps[k] == eo[i];
            if k < t.deps.len() {
                assert(t.deps.contains(t.deps[k]));
            } else {
                assert(ei[k - t.deps.len()].1 == x);
            }
        }
    }
    assert(eo.no_duplicates()) by {
        assert forall|i: int, j: int| 0 <= i < eo.len() && 0 <= j < eo.len() && i != j implies eo[i]
            != eo[j] by {
            assert(eo[i].1 == nv.notes_this_blocks[i]);
            assert(eo[j].1 == nv.notes_this_blocks[j]);
        }
    }
    lemma_insert_deps_appends(s2, eo);
    let s3 = StoreV { deps: s2.deps + eo, ..s2 };
    assert(restore_note(t, nv, row.rank) == Ok::<StoreV, ErrorV>(s3));
    assert(revert_action(t, t.mutations.last()) == Ok::<StoreV, ErrorV>(s3));
    let u = undo(t)->Ok_0;
    assert(u.notes == s1.notes);
    assert(u.deps == t.deps + ei + eo);
    assert(u.mutations =~= s.mutations);
    // The restored row is the only row of `x`.
    lemma_keep_unique_ids(s.notes, |r: RowV| !in_subtree(s, x, r.id));
    assert(unique_ids(u.notes)) by {
        assert forall|a: int, b: int|
            0 <= a < u.notes.len() && 0 <= b < u.notes.len() && a != b implies #[trigger] u.notes[a].id
            != #[trigger] u.notes[b].id by {
            if a < t.notes.len() && b < t.notes.len() {
                assert(u.notes[a] == t.notes[a] && u.notes[b] == t.notes[b]);
            } else if a < t.notes.len() {
                assert(u.notes[a] == t.notes[a]);
                assert(has_row(t.notes, t.notes[a].id));
            } else if b < t.notes.len() {
                assert(u.notes[b] == t.notes[b]);
                assert(has_row(t.notes, t.notes[b].id));
            }
        }
    }
    lemma_row_of(u.notes, t.notes.len() as int);
    assert(row_of(u.notes, x) == row2);
    // No row names `x` as its parent.
    assert forall|k: int| 0 <= k < u.notes.len() implies (#[trigger] u.notes[k]).parent != Some(x) by {
        if k < t.notes.len() {
            assert(t.notes.contains(t.notes[k]));
            lemma_keep_contains(s.notes, |r: RowV| !in_subtree(s, x, r.id), t.notes[k]);
            let m = choose|m: int| 0 <= m < s.notes.len() && s.notes[m] == t.notes[k];
            assert(s.notes[m].parent != Some(x));
        } else {
            assert(s.notes[i0].parent != Some(x));
        }
    }
    lemma_no_children(u.notes, x);
    // The relations of `x`: none in what was kept, the edges into it, then out of it.
    assert forall|k: int| 0 <= k < t.deps.len() implies (#[trigger] t.deps[k]).0 != x && t.deps[k].1
        != x by {
        assert(t.deps.contains(t.deps[k]));
    }
    lemma_no_blockees(t.deps, x);
    lemma_no_blockers(t.deps, x);
    assert forall|k: int| 0 <= k < ei.len() implies (#[trigger] ei[k]).0 != x by {
        let b = nv.notes_blocking_this[k];
        assert(nv.notes_blocking_this.contains(b));
        lemma_relations_contain(s.deps, x, b);
    }
    assert forall|k: int| 0 <= k < eo.len() implies (#[trigger] eo[k]).1 != x by {
        let b = nv.notes_this_blocks[k];
        assert(nv.notes_this_blocks.contains(b));
        lemma_relations_contain(s.deps, x, b);
    }
    lemma_no_blockees(ei, x);
    lemma_no_blockers(eo, x);
    lemma_relations_concat(t.deps, ei, x);
    lemma_relations_concat(t.deps + ei, eo, x);
    lemma_blockees_of_edges_out(nv);
    assert(blockees_of(u.deps, x) =~= nv.notes_this_blocks);
    assert(blockers_of(u.deps, x) =~= nv.notes_blocking_this);
    assert(note_view(u, row_of(u.notes, x)) == nv);
    // The same dependencies as a set.
    assert forall|e: (NoteId, NoteId)| u.deps.contains(e) == s.deps.contains(e) by {
        if u.deps.contains(e) {
            let k = choose|k: int| 0 <= k < u.deps.len() && u.deps[k] == e;
            if k < t.deps.len() {
                assert(t.deps.contains(t.deps[k]));
            } else if k < t.deps.len() + ei.len() {
                let b = nv.notes_blocking_this[k - t.deps.len()];
                assert(nv.notes_blocking_this.contains(b));
                lemma_relations_contain(s.deps, x, b);
            } else {
                let b = nv.notes_this_blocks[k - t.deps.len() - ei.len()];
                assert(nv.notes_this_blocks.contains(b));
                lemma_relations_contain(s.deps, x, b);
            }
        }
        if s.deps.contains(e) {
            if e.0 != x && e.1 != x {
                assert(t.deps.contains(e));
                let k = choose|k: int| 0 <= k < t.deps.len() && t.deps[k] == e;
                assert(u.deps[k] == e);
            } else if e.1 == x {
                lemma_relations_contain(s.deps, x, e.0);
                let k = choose|k: int|
                    0 <= k < nv.notes_blocking_this.len() && nv.notes_blocking_this[k] == e.0;
                assert(u.deps[t.deps.len() + k] == ei[k]);
            } else {
                lemma_relations_contain(s.deps, x, e.1);
                let k = choose|k: int|
                    0 <= k < nv.notes_this_blocks.len() && nv.notes_this_blocks[k] == e.1;
                assert(u.deps[t.deps.len() + ei.len() + k] == eo[k]);
            }
        }
    }
}

/// `n` hangs below `x` in the hierarchy.
spec fn reachable_below(s: StoreV, x: NoteId, n: NoteId) -> bool {
    crate::graph::reachable(parent_edges(s.notes), x, n)
}

} // verus!
