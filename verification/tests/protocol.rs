//! Framing, requests and answers of the sync protocol, the text forms of
//! notes and peers, ids, saved contents and the SQL schema.
use libshizen::display::{format_note, format_note_list, format_peer};
use libshizen::storage::rusqlite::{libshizen_sql_init_str, RusqliteStorage};
use libshizen::storage::TodoStorage;
use libshizen::sync::{frame_length, frame_message};
use libshizen::{Action, Note, NoteId, PeerId, PeerInfo, SyncRequest, SyncResponse};

#[test]
fn frame_carries_length_then_payload() {
    let payload = b"{\"Sync\":1}".to_vec();
    let framed = frame_message(&payload);
    assert_eq!(framed.len(), payload.len() + 4);
    assert_eq!(&framed[0..4], &[0u8, 0, 0, 10]);
    assert_eq!(&framed[4..], payload.as_slice());
    assert_eq!(frame_length([framed[0], framed[1], framed[2], framed[3]]), 10);
}

#[test]
fn frame_length_reads_big_endian() {
    assert_eq!(frame_length([0, 0, 0, 0]), 0);
    assert_eq!(frame_length([0, 0, 1, 0]), 256);
    assert_eq!(frame_length([1, 2, 3, 4]), 16909060);
    assert_eq!(frame_length([255, 255, 255, 255]), 4294967295);
    let big = vec![7u8; 70000];
    let framed = frame_message(&big);
    assert_eq!(&framed[0..4], &[0u8, 1, 17, 112]);
    assert_eq!(frame_length([framed[0], framed[1], framed[2], framed[3]]), 70000);
}

#[test]
fn requests_name_this_store() {
    let mut s = RusqliteStorage::open_in_memory();
    let me = s.get_peer_id().unwrap();
    match s.handshake_request(Some("localhost:1801".to_string())) {
        SyncRequest::PeerIdentificationHandshake { local_peer_id, local_server_address } => {
            assert_eq!(local_peer_id, me);
            assert_eq!(local_server_address, Some("localhost:1801".to_string()));
        },
        other => panic!("unexpected request {:?}", other),
    }
    s.add_known_peer(PeerId(3), "there").unwrap();
    s.set_peer_clock(&PeerId(3), 4).unwrap();
    match s.sync_request(&PeerId(3)).unwrap() {
        SyncRequest::Sync { local_peer_id, last_sync_clock } => {
            assert_eq!(local_peer_id, me);
            assert_eq!(last_sync_clock, 4);
        },
        other => panic!("unexpected request {:?}", other),
    }
}

#[test]
fn answers_give_changes_since_the_clock() {
    let mut s = RusqliteStorage::open_in_memory();
    let a = s.create_new_note("a", None, None).unwrap();
    s.update_title(&a.id, "b").unwrap();
    s.add_known_peer(PeerId(8), "there").unwrap();
    let answer = s
        .answer_sync_request(SyncRequest::Sync { local_peer_id: PeerId(8), last_sync_clock: 1 })
        .unwrap();
    match answer {
        SyncResponse::SyncResponse { clock, changes } => {
            assert_eq!(clock, 2);
            assert_eq!(changes.len(), 1);
            assert!(matches!(&changes[0], Action::UpdateTitle { new_title, .. } if new_title == "b"));
        },
        other => panic!("unexpected answer {:?}", other),
    }
    assert_eq!(s.get_peer(&PeerId(8)).unwrap().clock, 2);
    let hello = s
        .answer_sync_request(SyncRequest::PeerIdentificationHandshake {
            local_peer_id: PeerId(9),
            local_server_address: None,
        })
        .unwrap();
    assert!(matches!(hello, SyncResponse::PeerIdentificationHandshakeResponse(p) if p == s.get_peer_id().unwrap()));
    assert_eq!(s.get_peers().unwrap().len(), 1);
}

#[test]
fn sync_keeps_the_redo_queue_and_counts_changes() {
    let mut first = RusqliteStorage::open_in_memory();
    let mut second = RusqliteStorage::open_in_memory();
    second.add_known_peer(first.get_peer_id().unwrap(), "first").unwrap();
    let x = second.create_new_note("x", None, None).unwrap();
    second.create_new_note("y", None, None).unwrap();
    second.undo().unwrap();
    first.create_new_note("p", None, None).unwrap();
    first.create_new_note("q", None, None).unwrap();
    first.create_new_note("r", None, None).unwrap();
    let peer = second.get_peer(&first.get_peer_id().unwrap()).unwrap();
    let request = second.sync_request(&peer.peer_id).unwrap();
    let response = first.answer_sync_request(request).unwrap();
    let results = second.apply_sync_response(&peer, response).unwrap();
    assert_eq!(results.num_changes, 3);
    assert_eq!(results.updated_peer_clock, 3);
    assert_eq!(second.get_clock().unwrap(), 4);
    assert_eq!(second.load_redo_queue().unwrap().len(), 1);
    assert_eq!(second.get_peer(&peer.peer_id).unwrap().clock, 3);
    assert!(second.note_exists(&x.id).unwrap());
    assert_eq!(second.load_all_notes().unwrap().len(), 4);
}

#[test]
fn ids_read_back_from_their_text() {
    let id = NoteId(0x67e5504410b1426f9247bb680e5fe0c8);
    let text = id.to_string();
    assert_eq!(text, "67e55044-10b1-426f-9247-bb680e5fe0c8");
    assert_eq!(NoteId::parse_str(&text).unwrap(), id);
    assert_eq!("67E55044-10B1-426F-9247-BB680E5FE0C8".parse::<NoteId>().unwrap(), id);
    let peer = PeerId(1);
    assert_eq!(peer.to_string(), "00000000-0000-0000-0000-000000000001");
    assert_eq!(PeerId::parse_str(&peer.to_string()).unwrap(), peer);
    assert_ne!(NoteId::new_random(), NoteId::new_random());
}

#[test]
fn notes_and_peers_as_text() {
    let note = Note {
        id: NoteId(1),
        title: "Picard".to_string(),
        description: None,
        completed: true,
        parent_id: Some(NoteId(2)),
        children_ids: vec![],
        notes_this_blocks: vec![NoteId(3), NoteId(4)],
        notes_blocking_this: vec![],
    };
    let expected = ":DONE: Picard -- (00000000-0000-0000-0000-000000000001)\n  ---\n  Parent: 00000000-0000-0000-0000-000000000002\n  Blocking: 00000000-0000-0000-0000-000000000003,00000000-0000-0000-0000-000000000004\n  Blocked By: ";
    assert_eq!(format_note(&note), expected);
    let open_note = Note { completed: false, description: Some("Captain".to_string()), parent_id: None, ..note.clone() };
    assert!(format_note(&open_note).starts_with("Picard -- ("));
    assert!(format_note(&open_note).contains("\n  Captain\n  Parent: None\n"));
    let list = format_note_list(&vec![note.clone(), open_note.clone()]);
    assert_eq!(list, format!("\u{2022} {}\n\n\u{2022} {}\n\n", format_note(&note), format_note(&open_note)));
    assert_eq!(format_note_list(&vec![]), "");
    let peer = PeerInfo { peer_id: PeerId(5), clock: 0, addr: "127.0.0.1:1701".to_string() };
    assert_eq!(
        format_peer(&peer),
        "Peer Id: 00000000-0000-0000-0000-000000000005 Address: 127.0.0.1:1701"
    );
}

#[test]
fn contents_restore_the_store() {
    let mut s = RusqliteStorage::open_in_memory();
    let a = s.create_new_note("a", Some("first"), None).unwrap();
    let b = s.create_new_note("b", None, Some(&a.id)).unwrap();
    s.add_blocked_note(&a.id, &b.id).unwrap();
    s.add_known_peer(PeerId(12), "peer").unwrap();
    s.undo().unwrap();
    let restored = RusqliteStorage::from_contents(s.contents()).unwrap();
    assert_eq!(restored.get_peer_id().unwrap(), s.get_peer_id().unwrap());
    assert_eq!(restored.get_clock().unwrap(), 2);
    assert_eq!(restored.load_all_notes().unwrap(), s.load_all_notes().unwrap());
    assert_eq!(restored.load_redo_queue().unwrap(), s.load_redo_queue().unwrap());
    assert_eq!(
        restored.load_all_changes_since_clock(0).unwrap(),
        s.load_all_changes_since_clock(0).unwrap()
    );
    assert_eq!(restored.get_peers().unwrap(), s.get_peers().unwrap());
}

#[test]
fn schema_creates_the_tables() {
    let sql = libshizen_sql_init_str();
    for table in [
        "CREATE TABLE Notes",
        "CREATE TABLE Children",
        "CREATE TABLE Dependencies",
        "CREATE TABLE Mutations",
        "CREATE TABLE RedoMutations",
        "CREATE TABLE Peers",
        "CREATE TABLE LocalSettings",
        "CREATE TABLE SchemaVersion",
        "CREATE VIEW FullyQualifiedNotes",
    ] {
        assert!(sql.contains(table), "missing {}", table);
    }
}

#[test]
fn random_ids_are_version_four() {
    let note_text = NoteId::new_random().to_string();
    let peer_text = PeerId::new_random().to_string();
    let store = RusqliteStorage::open_in_memory();
    let store_text = store.get_peer_id().unwrap().to_string();
    for text in [note_text, peer_text, store_text] {
        let chars: Vec<char> = text.chars().collect();
        assert_eq!(chars[14], '4');
        assert!(matches!(chars[19], '8' | '9' | 'a' | 'b'));
    }
}

#[test]
fn sync_without_changes_leaves_the_notes() {
    let mut first = RusqliteStorage::open_in_memory();
    let mut second = RusqliteStorage::open_in_memory();
    let first_id = first.get_peer_id().unwrap();
    second.add_known_peer(first_id, "first").unwrap();
    let n = second.create_new_note("n", None, None).unwrap();
    second.set_completed(&n.id, true).unwrap();
    second.set_peer_clock(&first_id, 2).unwrap();
    second.undo().unwrap();
    let before = second.load_all_notes().unwrap();
    let peer = second.get_peer(&first_id).unwrap();
    let request = second.sync_request(&first_id).unwrap();
    let response = first.answer_sync_request(request).unwrap();
    let results = second.apply_sync_response(&peer, response).unwrap();
    assert_eq!(results.num_changes, 0);
    assert_eq!(results.updated_peer_clock, 0);
    assert_eq!(second.load_all_notes().unwrap(), before);
    assert!(!second.load_note(&n.id).unwrap().completed);
    assert_eq!(second.get_clock().unwrap(), 1);
    assert_eq!(second.load_redo_queue().unwrap().len(), 1);
}
