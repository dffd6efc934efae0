//! Reachability over a directed graph given as a list of edges between notes.
//!
//! The parent hierarchy (edges parent -> child) and the dependency graph
//! (edges blocker -> blockee) are both such graphs.
use vstd::prelude::*;

use crate::entities::NoteId;

verus! {

/// The edge from `p[i]` to `p[i + 1]` is one of `e`.
pub open spec fn path_step(e: Seq<(NoteId, NoteId)>, p: Seq<NoteId>, i: int) -> bool {
    e.contains((p[i], p[i + 1]))
}

/// `p` is a path of at least one edge in `e`.
pub open spec fn is_path(e: Seq<(NoteId, NoteId)>, p: Seq<NoteId>) -> bool {
    &&& p.len() >= 2
    &&& forall|i: int| 0 <= i < p.len() - 1 ==> #[trigger] path_step(e, p, i)
}

/// `b` can be reached from `a` by following one or more edges of `e`.
pub open spec fn reachable(e: Seq<(NoteId, NoteId)>, a: NoteId, b: NoteId) -> bool {
    exists|p: Seq<NoteId>| #[trigger] is_path(e, p) && p[0] == a && p.last() == b
}

/// No note can be reached from itself.
pub open spec fn acyclic(e: Seq<(NoteId, NoteId)>) -> bool {
    forall|n: NoteId| !#[trigger] reachable(e, n, n)
}

/// The targets of the edges of `e`.
pub open spec fn targets(e: Seq<(NoteId, NoteId)>) -> Seq<NoteId> {
    e.map_values(|ed: (NoteId, NoteId)| ed.1)
}

pub proof fn lemma_edge_reachable(e: Seq<(NoteId, NoteId)>, a: NoteId, b: NoteId)
    requires
        e.contains((a, b)),
    ensures
        reachable(e, a, b),
{
    let p = seq![a, b];
    assert(path_step(e, p, 0));
    assert(is_path(e, p));
}

pub proof fn lemma_reachable_extend(e: Seq<(NoteId, NoteId)>, a: NoteId, b: NoteId, c: NoteId)
    requires
        reachable(e, a, b),
        e.contains((b, c)),
    ensures
        reachable(e, a, c),
{
    let p = choose|p: Seq<NoteId>| #[trigger] is_path(e, p) && p[0] == a && p.last() == b;
    let q = p.push(c);
    assert forall|i: int| 0 <= i < q.len() - 1 implies #[trigger] path_step(e, q, i) by {
        if i < p.len() - 1 {
            assert(path_step(e, p, i));
        }
    }
    assert(is_path(e, q));
}

/// Reachability is transitive.
pub proof fn lemma_reachable_trans(e: Seq<(NoteId, NoteId)>, a: NoteId, b: NoteId, c: NoteId)
    requires
        reachable(e, a, b),
        reachable(e, b, c),
    ensures
        reachable(e, a, c),
{
    let p = choose|p: Seq<NoteId>| #[trigger] is_path(e, p) && p[0] == a && p.last() == b;
    let q = choose|q: Seq<NoteId>| #[trigger] is_path(e, q) && q[0] == b && q.last() == c;
    let r = p + q.drop_first();
    assert forall|i: int| 0 <= i < r.len() - 1 implies #[trigger] path_step(e, r, i) by {
        if i < p.len() - 1 {
            assert(path_step(e, p, i));
        } else {
            let j = i - (p.len() - 1);
            assert(path_step(e, q, j));
            assert(r[i] == q[j]);
            assert(r[i + 1] == q[j + 1]);
        }
    }
    assert(is_path(e, r));
}

/// A set of notes that holds every successor of `a` and is closed under the
/// edges holds every note that is reachable from `a`.
pub proof fn lemma_closed_set_complete(
    e: Seq<(NoteId, NoteId)>,
    a: NoteId,
    f: Seq<NoteId>,
    b: NoteId,
)
    requires
        forall|v: NoteId| e.contains((a, v)) ==> f.contains(v),
        forall|u: NoteId, v: NoteId| f.contains(u) && e.contains((u, v)) ==> f.contains(v),
        reachable(e, a, b),
    ensures
        f.contains(b),
{
    let p = choose|p: Seq<NoteId>| #[trigger] is_path(e, p) && p[0] == a && p.last() == b;
    lemma_closed_set_holds_path(e, a, f, p, p.len() - 1);
}

proof fn lemma_closed_set_holds_path(
    e: Seq<(NoteId, NoteId)>,
    a: NoteId,
    f: Seq<NoteId>,
    p: Seq<NoteId>,
    k: int,
)
    requires
        forall|v: NoteId| e.contains((a, v)) ==> f.contains(v),
        forall|u: NoteId, v: NoteId| f.contains(u) && e.contains((u, v)) ==> f.contains(v),
        is_path(e, p),
        p[0] == a,
        1 <= k < p.len(),
    ensures
        f.contains(p[k]),
    decreases k,
{
    assert(path_step(e, p, k - 1));
    if k > 1 {
        lemma_closed_set_holds_path(e, a, f, p, k - 1);
    }
}

/// A path in the edges `e` with one edge `(x, y)` added either is a path of
/// `e`, or it goes from its start to `x` (or starts at `x`) and from `y` to its
/// end (or ends at `y`) within `e`.
pub proof fn lemma_reachable_after_push(
    e: Seq<(NoteId, NoteId)>,
    x: NoteId,
    y: NoteId,
    a: NoteId,
    b: NoteId,
)
    requires
        reachable(e.push((x, y)), a, b),
    ensures
        reachable(e, a, b) || ((a == x || reachable(e, a, x)) && (y == b || reachable(e, y, b))),
{
    let e2 = e.push((x, y));
    let p = choose|p: Seq<NoteId>| #[trigger] is_path(e2, p) && p[0] == a && p.last() == b;
    lemma_path_after_push(e, x, y, p);
}

proof fn lemma_path_after_push(e: Seq<(NoteId, NoteId)>, x: NoteId, y: NoteId, p: Seq<NoteId>)
    requires
        is_path(e.push((x, y)), p),
    ensures
        reachable(e, p[0], p.last()) || ((p[0] == x || reachable(e, p[0], x)) && (y == p.last()
            || reachable(e, y, p.last()))),
    decreases p.len(),
{
    let e2 = e.push((x, y));
    assert(path_step(e2, p, 0));
    if p.len() == 2 {
        if e.contains((p[0], p[1])) {
            lemma_edge_reachable(e, p[0], p[1]);
        } else {
            let k = choose|k: int| 0 <= k < e2.len() && e2[k] == (p[0], p[1]);
            assert(k == e.len());
        }
    } else {
        let q = p.drop_last();
        assert forall|i: int| 0 <= i < q.len() - 1 implies #[trigger] path_step(e2, q, i) by {
            assert(path_step(e2, p, i));
        }
        lemma_path_after_push(e, x, y, q);
        let u = q.last();
        let v = p.last();
        assert(path_step(e2, p, p.len() - 2));
        assert(p[p.len() - 2] == u);
        if e.contains((u, v)) {
            if reachable(e, p[0], u) {
                lemma_reachable_extend(e, p[0], u, v);
            } else {
                if y == u {
                    lemma_edge_reachable(e, u, v);
                } else {
                    lemma_reachable_extend(e, y, u, v);
                }
            }
        } else {
            let k = choose|k: int| 0 <= k < e2.len() && e2[k] == (u, v);
            assert(k == e.len());
            assert(u == x && v == y);
        }
    }
}

/// Adding the edge `(x, y)` to an acyclic graph keeps it acyclic when `x`
/// cannot be reached from `y` and the edge is not a loop.
pub proof fn lemma_push_keeps_acyclic(e: Seq<(NoteId, NoteId)>, x: NoteId, y: NoteId)
    requires
        acyclic(e),
        !reachable(e, y, x),
        x != y,
    ensures
        acyclic(e.push((x, y))),
{
    let e2 = e.push((x, y));
    assert forall|n: NoteId| !#[trigger] reachable(e2, n, n) by {
        if reachable(e2, n, n) {
            lemma_reachable_after_push(e, x, y, n, n);
            assert(!reachable(e, n, n));
            if n == x {
                if y == n {
                } else {
                    assert(reachable(e, y, n));
                }
            } else {
                if y == n {
                    assert(reachable(e, n, x));
                } else {
                    lemma_reachable_trans(e, y, n, x);
                }
            }
        }
    }
}

/// Reachability carries over to a graph with more edges.
pub proof fn lemma_reachable_subset(
    e1: Seq<(NoteId, NoteId)>,
    e2: Seq<(NoteId, NoteId)>,
    a: NoteId,
    b: NoteId,
)
    requires
        forall|x: (NoteId, NoteId)| e1.contains(x) ==> e2.contains(x),
        reachable(e1, a, b),
    ensures
        reachable(e2, a, b),
{
    let p = choose|p: Seq<NoteId>| #[trigger] is_path(e1, p) && p[0] == a && p.last() == b;
    assert forall|i: int| 0 <= i < p.len() - 1 implies #[trigger] path_step(e2, p, i) by {
        assert(path_step(e1, p, i));
    }
    assert(is_path(e2, p));
}

/// A graph whose edges are all edges of an acyclic graph is acyclic.
pub proof fn lemma_acyclic_subset(e1: Seq<(NoteId, NoteId)>, e2: Seq<(NoteId, NoteId)>)
    requires
        forall|x: (NoteId, NoteId)| e1.contains(x) ==> e2.contains(x),
        acyclic(e2),
    ensures
        acyclic(e1),
{
    assert forall|n: NoteId| !#[trigger] reachable(e1, n, n) by {
        if reachable(e1, n, n) {
            lemma_reachable_subset(e1, e2, n, n);
        }
    }
}

/// Whether `x` occurs in `v`.
pub fn contains_id(v: &Vec<NoteId>, x: NoteId) -> (r: bool)
    ensures
        r == v@.contains(x),
{
    let mut i: usize = 0;
    while i < v.len()
        invariant
            i <= v.len(),
            forall|j: int| 0 <= j < i ==> v@[j] != x,
        decreases v.len() - i,
    {
        if v[i] == x {
            return true;
        }
        i = i + 1;
    }
    false
}

/// Appends to `found` every direct successor of `x` that it does not hold yet.
fn push_successors(edges: &Vec<(NoteId, NoteId)>, x: NoteId, found: &mut Vec<NoteId>)
    requires
        old(found)@.no_duplicates(),
    ensures
        final(found)@.no_duplicates(),
        final(found)@.subrange(0, old(found)@.len() as int) == old(found)@,
        final(found)@.len() >= old(found)@.len(),
        forall|v: NoteId| #[trigger]
            final(found)@.contains(v) <==> (old(found)@.contains(v) || edges@.contains((x, v))),
{
    let ghost start = found@;
    let mut k: usize = 0;
    while k < edges.len()
        invariant
            k <= edges.len(),
            found@.no_duplicates(),
            found@.len() >= start.len(),
            found@.subrange(0, start.len() as int) == start,
            forall|v: NoteId| #[trigger]
                found@.contains(v) <==> (start.contains(v) || (exists|j: int|
                    0 <= j < k && edges@[j] == (x, v))),
        decreases edges.len() - k,
    {
        let (u, v) = edges[k];
        if u == x && !contains_id(found, v) {
            let ghost before = found@;
            found.push(v);
            assert forall|w: NoteId| #[trigger]
                found@.contains(w) <==> (start.contains(w) || (exists|j: int|
                    0 <= j < k + 1 && edges@[j] == (x, w))) by {
                if found@.contains(w) && w != v {
                    let i = choose|i: int| 0 <= i < found@.len() && found@[i] == w;
                    assert(before[i] == w);
                }
                if w == v {
                    assert(found@[found@.len() - 1] == v);
                }
                if exists|j: int| 0 <= j < k + 1 && edges@[j] == (x, w) {
                    if w != v {
                        let j = choose|j: int| 0 <= j < k + 1 && edges@[j] == (x, w);
                        assert(j != k);
                        assert(before.contains(w));
                    }
                }
                if before.contains(w) {
                    let i = choose|i: int| 0 <= i < before.len() && before[i] == w;
                    assert(found@[i] == w);
                }
            }
            assert(found@.subrange(0, start.len() as int) =~= start) by {
                assert(before.subrange(0, start.len() as int) == start);
            }
        } else {
            assert forall|w: NoteId| #[trigger]
                found@.contains(w) <==> (start.contains(w) || (exists|j: int|
                    0 <= j < k + 1 && edges@[j] == (x, w))) by {
                if exists|j: int| 0 <= j < k + 1 && edges@[j] == (x, w) {
                    let j = choose|j: int| 0 <= j < k + 1 && edges@[j] == (x, w);
                    if j == k {
                        assert(u == x && v == w);
                    }
                }
            }
        }
        k = k + 1;
    }
    assert forall|v: NoteId| #[trigger]
        found@.contains(v) <==> (start.contains(v) || edges@.contains((x, v))) by {
        if edges@.contains((x, v)) {
            let j = choose|j: int| 0 <= j < edges@.len() && edges@[j] == (x, v);
        }
    }
}

/// Every note in `f` is a target of some edge, so a duplicate-free `f` is no
/// longer than the list of edges.
proof fn lemma_found_bound(e: Seq<(NoteId, NoteId)>, f: Seq<NoteId>)
    requires
        f.no_duplicates(),
        forall|v: NoteId| f.contains(v) ==> exists|u: NoteId| e.contains((u, v)),
    ensures
        f.len() <= e.len(),
{
    let t = targets(e);
    assert(f.to_set().subset_of(t.to_set())) by {
        assert forall|v: NoteId| f.to_set().contains(v) implies t.to_set().contains(v) by {
            assert(f.contains(v));
            let u = choose|u: NoteId| e.contains((u, v));
            let j = choose|j: int| 0 <= j < e.len() && e[j] == (u, v);
            assert(t[j] == v);
        }
    }
    f.unique_seq_to_set();
    t.lemma_cardinality_of_set();
    vstd::set_lib::lemma_len_subset(f.to_set(), t.to_set());
}

/// Every note that can be reached from `start` by one or more edges, each once.
pub fn reachable_from(edges: &Vec<(NoteId, NoteId)>, start: NoteId) -> (found: Vec<NoteId>)
    ensures
        found@.no_duplicates(),
        forall|x: NoteId| #[trigger] found@.contains(x) <==> reachable(edges@, start, x),
{
    let mut found: Vec<NoteId> = Vec::new();
    push_successors(edges, start, &mut found);
    proof {
        assert forall|v: NoteId| found@.contains(v) implies reachable(edges@, start, v)
            && exists|u: NoteId| edges@.contains((u, v)) by {
            lemma_edge_reachable(edges@, start, v);
        }
        lemma_found_bound(edges@, found@);
    }
    let mut i: usize = 0;
    while i < found.len()
        invariant
            i <= found.len(),
            found@.len() <= edges@.len(),
            found@.no_duplicates(),
            forall|v: NoteId| found@.contains(v) ==> reachable(edges@, start, v),
            forall|v: NoteId| found@.contains(v) ==> exists|u: NoteId| edges@.contains((u, v)),
            forall|v: NoteId| edges@.contains((start, v)) ==> found@.contains(v),
            forall|j: int, v: NoteId|
                0 <= j < i && edges@.contains((found@[j], v)) ==> found@.contains(v),
        decreases edges@.len() - i,
    {
        let x = found[i];
        let ghost before = found@;
        push_successors(edges, x, &mut found);
        proof {
            assert forall|v: NoteId| found@.contains(v) implies reachable(edges@, start, v)
                && exists|u: NoteId| edges@.contains((u, v)) by {
                if !before.contains(v) {
                    assert(edges@.contains((x, v)));
                    assert(before.contains(x));
                    lemma_reachable_extend(edges@, start, x, v);
                }
            }
            assert forall|j: int, v: NoteId|
                0 <= j < i + 1 && edges@.contains((found@[j], v)) implies found@.contains(v) by {
                assert(found@[j] == before[j]);
            }
            lemma_found_bound(edges@, found@);
        }
        i = i + 1;
    }
    proof {
        assert forall|x: NoteId| reachable(edges@, start, x) implies #[trigger] found@.contains(
            x,
        ) by {
            assert forall|u: NoteId, v: NoteId|
                found@.contains(u) && edges@.contains((u, v)) implies found@.contains(v) by {
                let j = choose|j: int| 0 <= j < found@.len() && found@[j] == u;
            }
            lemma_closed_set_complete(edges@, start, found@, x);
        }
    }
    found
}

/// Whether `to` can be reached from `from` by one or more edges.
pub fn reaches(edges: &Vec<(NoteId, NoteId)>, from: NoteId, to: NoteId) -> (r: bool)
    ensures
        r == reachable(edges@, from, to),
{
    let found = reachable_from(edges, from);
    contains_id(&found, to)
}

} // verus!
