//! The text in which notes and peers are shown to a user.
use vstd::prelude::*;

use crate::entities::{uuid_text, Note, NoteId, NoteV, PeerInfo, PeerInfoV};
use crate::storage::rusqlite::notes_view;

verus! {

/// The texts of the ids, separated by commas.
pub open spec fn ids_text(ids: Seq<NoteId>) -> Seq<char>
    decreases ids.len(),
{
    if ids.len() == 0 {
        Seq::empty()
    } else if ids.len() == 1 {
        uuid_text(ids[0].0)
    } else {
        ids_text(ids.drop_last()) + ","@ + uuid_text(ids.last().0)
    }
}

/// A note as a few lines of text: a `:DONE: ` mark where it is completed,
/// its title and id, its description (`---` where it has none), its parent
/// (`None` where it has none), and the notes it blocks and that block it.
pub open spec fn note_text(n: NoteV) -> Seq<char> {
    (if n.completed {
        ":DONE: "@
    } else {
        ""@
    }) + n.title + " -- ("@ + uuid_text(n.id.0) + ")\n  "@ + (match n.description {
        Some(d) => d,
        None => "---"@,
    }) + "\n  Parent: "@ + (match n.parent_id {
        Some(p) => uuid_text(p.0),
        None => "None"@,
    }) + "\n  Blocking: "@ + ids_text(n.notes_this_blocks) + "\n  Blocked By: "@ + ids_text(
        n.notes_blocking_this,
    )
}

/// The notes as a bulleted list, each followed by an empty line.
pub open spec fn note_list_text(ns: Seq<NoteV>) -> Seq<char>
    decreases ns.len(),
{
    if ns.len() == 0 {
        ""@
    } else {
        note_list_text(ns.drop_last()) + "\u{2022} "@ + note_text(ns.last()) + "\n\n"@
    }
}

/// A peer as one line of text: its id and its address.
pub open spec fn peer_text(p: PeerInfoV) -> Seq<char> {
    "Peer Id: "@ + uuid_text(p.peer_id.0) + " Address: "@ + p.addr
}

/// Appends the texts of the ids, separated by commas.
fn push_ids(out: &mut String, ids: &Vec<NoteId>)
    ensures
        final(out)@ == old(out)@ + ids_text(ids@),
{
    let mut i: usize = 0;
    let ghost start = out@;
    while i < ids.len()
        invariant
            i <= ids@.len(),
            out@ == start + ids_text(ids@.subrange(0, i as int)),
        decreases ids.len() - i,
    {
        let ghost before = out@;
        if i > 0 {
            out.append(",");
        }
        let t = ids[i].to_string();
        out.append(t.as_str());
        proof {
            let sub = ids@.subrange(0, i + 1);
            assert(sub.drop_last() =~= ids@.subrange(0, i as int));
            if i == 0 {
                assert(ids_text(ids@.subrange(0, 0)) =~= Seq::<char>::empty());
                assert(out@ =~= start + ids_text(sub));
            } else {
                assert(out@ =~= start + ids_text(sub));
            }
        }
        i = i + 1;
    }
    assert(ids@.subrange(0, ids@.len() as int) =~= ids@);
}

/// The text of a note.
pub fn format_note(note: &Note) -> (s: String)
    ensures
        s@ == note_text(note@),
{
    let mut s = String::new();
    if note.completed {
        s.append(":DONE: ");
    } else {
        s.append("");
    }
    s.append(note.title.as_str());
    s.append(" -- (");
    let id = note.id.to_string();
    s.append(id.as_str());
    s.append(")\n  ");
    match &note.description {
        Some(d) => s.append(d.as_str()),
        None => s.append("---"),
    }
    s.append("\n  Parent: ");
    match &note.parent_id {
        Some(p) => {
            let t = p.to_string();
            s.append(t.as_str());
        },
        None => s.append("None"),
    }
    s.append("\n  Blocking: ");
    push_ids(&mut s, &note.notes_this_blocks);
    s.append("\n  Blocked By: ");
    push_ids(&mut s, &note.notes_blocking_this);
    proof {
        let n = note@;
        assert(s@ =~= note_text(n));
    }
    s
}

/// The text of a list of notes.
pub fn format_note_list(notes: &Vec<Note>) -> (s: String)
    ensures
        s@ == note_list_text(notes_view(notes@)),
{
    let mut s = String::new();
    s.append("");
    let mut i: usize = 0;
    while i < notes.len()
        invariant
            i <= notes@.len(),
            s@ == note_list_text(notes_view(notes@).subrange(0, i as int)),
        decreases notes.len() - i,
    {
        let t = format_note(&notes[i]);
        s.append("\u{2022} ");
        s.append(t.as_str());
        s.append("\n\n");
        proof {
            let sub = notes_view(notes@).subrange(0, i + 1);
            assert(sub.drop_last() =~= notes_view(notes@).subrange(0, i as int));
            assert(sub.last() == notes@[i as int]@);
            assert(s@ =~= note_list_text(sub));
        }
        i = i + 1;
    }
    assert(notes_view(notes@).subrange(0, notes@.len() as int) =~= notes_view(notes@));
    s
}

/// The text of a peer.
pub fn format_peer(peer: &PeerInfo) -> (s: String)
    ensures
        s@ == peer_text(peer@),
{
    let mut s = String::new();
    s.append("Peer Id: ");
    let id = peer.peer_id.to_string();
    s.append(id.as_str());
    s.append(" Address: ");
    s.append(peer.addr.as_str());
    assert(s@ =~= peer_text(peer@));
    s
}

} // verus!
