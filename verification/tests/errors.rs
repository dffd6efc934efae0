//! Each refusal of the store, on an input that gives it, and the store left
//! unchanged by it.
use libshizen::storage::rusqlite::{NoteRow, StoreContents};
use libshizen::storage::TodoStorage;
use libshizen::sync::handshake_peer_id;
use libshizen::{Action, DbError, NoteId, PeerId, RusqliteStorage, ShizenError, SyncResponse};

#[test]
fn missing_note_is_reported() {
    let mut s = RusqliteStorage::open_in_memory();
    let ghost = NoteId(7);
    assert!(matches!(
        s.load_note(&ghost),
        Err(ShizenError::RusqliteError(DbError::QueryReturnedNoRows))
    ));
    assert!(matches!(
        s.update_title(&ghost, "x"),
        Err(ShizenError::RusqliteError(DbError::QueryReturnedNoRows))
    ));
    assert!(matches!(
        s.delete_note(&ghost),
        Err(ShizenError::RusqliteError(DbError::QueryReturnedNoRows))
    ));
    assert!(matches!(
        s.create_new_note("orphan", None, Some(&ghost)),
        Err(ShizenError::NoSuchNote(n)) if n == ghost
    ));
    let a = s.create_new_note("a", None, None).unwrap();
    assert!(matches!(
        s.add_blocked_note(&a.id, &ghost),
        Err(ShizenError::NoSuchNote(n)) if n == ghost
    ));
    assert!(matches!(
        s.update_parent(&a.id, Some(&ghost)),
        Err(ShizenError::NoSuchNote(n)) if n == ghost
    ));
    assert_eq!(s.get_clock().unwrap(), 1);
}

#[test]
fn missing_dependency_is_reported() {
    let mut s = RusqliteStorage::open_in_memory();
    let a = s.create_new_note("a", None, None).unwrap();
    let b = s.create_new_note("b", None, None).unwrap();
    assert!(matches!(
        s.remove_blocked_note(&a.id, &b.id),
        Err(ShizenError::NoSuchDependency(x, y)) if x == a.id && y == b.id
    ));
    assert_eq!(s.get_clock().unwrap(), 2);
}

#[test]
fn duplicate_dependency_is_refused() {
    let mut s = RusqliteStorage::open_in_memory();
    let a = s.create_new_note("a", None, None).unwrap();
    let b = s.create_new_note("b", None, None).unwrap();
    s.add_blocked_note(&a.id, &b.id).unwrap();
    assert!(matches!(
        s.add_blocked_note(&a.id, &b.id),
        Err(ShizenError::RusqliteError(DbError::UniqueConstraintFailed))
    ));
    assert_eq!(s.load_note(&b.id).unwrap().notes_blocking_this, vec![a.id]);
}

#[test]
fn duplicate_note_id_is_refused() {
    let mut s = RusqliteStorage::open_in_memory();
    let a = s.create_new_note("a", None, None).unwrap();
    let again = Action::CreateNote {
        id: a.id,
        title: "again".to_string(),
        description: None,
        parent: None,
    };
    assert!(matches!(
        s.apply_action(&again),
        Err(ShizenError::RusqliteError(DbError::UniqueConstraintFailed))
    ));
    assert_eq!(s.load_note(&a.id).unwrap().title, "a");
}

#[test]
fn undo_to_a_missing_parent_is_refused() {
    let mut s = RusqliteStorage::open_in_memory();
    let b = s.create_new_note("b", None, None).unwrap();
    let gone = NoteId(99);
    s.apply_action(&Action::ChangeParent { id: b.id, old_parent: Some(gone), new_parent: None })
        .unwrap();
    assert!(matches!(
        s.undo(),
        Err(ShizenError::RusqliteError(DbError::ForeignKeyConstraintFailed))
    ));
    assert_eq!(s.get_clock().unwrap(), 2);
    assert_eq!(s.load_redo_queue().unwrap().len(), 0);
}

#[test]
fn rank_adjustment_needs_a_neighbour() {
    let mut s = RusqliteStorage::open_in_memory();
    let a = s.create_new_note("a", None, None).unwrap();
    assert!(matches!(
        s.adjust_rank_between(&a.id, None, None),
        Err(ShizenError::InvalidRankAdjustment)
    ));
    assert!(matches!(
        s.adjust_rank_between(&a.id, Some(&a.id), Some(&a.id)),
        Err(ShizenError::NoRankBetween)
    ));
    assert_eq!(s.get_clock().unwrap(), 1);
}

fn stored(notes: Vec<NoteRow>) -> RusqliteStorage {
    RusqliteStorage::from_contents(StoreContents {
        peer_id: PeerId(1),
        clock: 0,
        notes,
        dependencies: vec![],
        mutations: vec![],
        redo_mutations: vec![],
        peers: vec![],
    })
    .unwrap()
}

fn row(id: u128, rank: Option<&str>) -> NoteRow {
    NoteRow {
        id: NoteId(id),
        title: format!("n{}", id),
        description: None,
        completed: false,
        parent: None,
        rank: rank.map(|r| r.to_string()),
    }
}

#[test]
fn unreadable_rank_is_reported() {
    let mut s = stored(vec![row(1, Some("0|a")), row(2, Some("rank"))]);
    assert!(matches!(
        s.adjust_rank_between(&NoteId(1), Some(&NoteId(2)), None),
        Err(ShizenError::LexorankParseError(_))
    ));
    assert!(matches!(
        s.create_new_note("c", None, None),
        Err(ShizenError::LexorankParseError(_))
    ));
    assert_eq!(s.get_clock().unwrap(), 0);
}

#[test]
fn missing_rank_is_reported() {
    let mut s = stored(vec![row(1, Some("0|a")), row(2, None)]);
    assert!(matches!(
        s.adjust_rank_between(&NoteId(1), Some(&NoteId(2)), None),
        Err(ShizenError::RusqliteError(DbError::NullValue))
    ));
    let order: Vec<_> = s.load_all_notes().unwrap().into_iter().map(|n| n.id).collect();
    assert_eq!(order, vec![NoteId(2), NoteId(1)]);
}

#[test]
fn invalid_contents_are_refused() {
    let dup = StoreContents {
        peer_id: PeerId(1),
        clock: 0,
        notes: vec![row(1, Some("0|a")), row(1, Some("0|b"))],
        dependencies: vec![],
        mutations: vec![],
        redo_mutations: vec![],
        peers: vec![],
    };
    assert!(matches!(
        RusqliteStorage::from_contents(dup),
        Err(ShizenError::ErrorOpeningDb(_))
    ));
    let dangling = StoreContents {
        peer_id: PeerId(1),
        clock: 0,
        notes: vec![row(1, Some("0|a"))],
        dependencies: vec![(NoteId(1), NoteId(2))],
        mutations: vec![],
        redo_mutations: vec![],
        peers: vec![],
    };
    assert!(matches!(
        RusqliteStorage::from_contents(dangling),
        Err(ShizenError::ErrorOpeningDb(_))
    ));
    let bad_clock = StoreContents {
        peer_id: PeerId(1),
        clock: 3,
        notes: vec![],
        dependencies: vec![],
        mutations: vec![],
        redo_mutations: vec![],
        peers: vec![],
    };
    assert!(matches!(
        RusqliteStorage::from_contents(bad_clock),
        Err(ShizenError::ErrorOpeningDb(_))
    ));
}

#[test]
fn peers_are_checked() {
    let mut s = RusqliteStorage::open_in_memory();
    let me = s.get_peer_id().unwrap();
    assert!(matches!(
        s.add_known_peer(me, "localhost:1"),
        Err(ShizenError::CannotBePeerOfSelf)
    ));
    let other = PeerId(42);
    assert_eq!(s.add_known_peer(other, "localhost:2").unwrap(), other);
    assert!(matches!(
        s.add_known_peer(other, "localhost:3"),
        Err(ShizenError::PeerAlreadyExists(p)) if p == other
    ));
    assert!(matches!(
        s.add_connected_peer(other, 5, "localhost:4"),
        Err(ShizenError::RusqliteError(DbError::UniqueConstraintFailed))
    ));
    assert!(matches!(
        s.get_peer(&PeerId(43)),
        Err(ShizenError::RusqliteError(DbError::QueryReturnedNoRows))
    ));
    s.set_peer_clock(&other, 9).unwrap();
    assert_eq!(s.get_peer(&other).unwrap().clock, 9);
    s.remove_peer(&other).unwrap();
    assert_eq!(s.get_peers().unwrap().len(), 0);
}

#[test]
fn unexpected_responses_are_refused() {
    let mut s = RusqliteStorage::open_in_memory();
    let wrong = SyncResponse::SyncResponse { clock: 0, changes: vec![] };
    assert!(matches!(
        handshake_peer_id(wrong),
        Err(ShizenError::UnexpectedSyncProtocolResponse(_, _))
    ));
    s.add_known_peer(PeerId(5), "peer").unwrap();
    let peer = s.get_peer(&PeerId(5)).unwrap();
    let wrong = SyncResponse::PeerIdentificationHandshakeResponse(PeerId(5));
    assert!(matches!(
        s.apply_sync_response(&peer, wrong),
        Err(ShizenError::UnexpectedSyncProtocolResponse(_, _))
    ));
    assert!(matches!(
        s.sync_request(&PeerId(6)),
        Err(ShizenError::RusqliteError(DbError::QueryReturnedNoRows))
    ));
}

#[test]
fn malformed_ids_are_refused() {
    assert!(NoteId::parse_str("not a uuid").is_err());
    assert!(PeerId::parse_str("67e55044-10b1-426f-9247").is_err());
    assert!("zzz".parse::<NoteId>().is_err());
}
