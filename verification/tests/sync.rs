//! The sync scenarios, with the two stores talking to each other directly:
//! each request is answered by the other store as its server would answer it.
use libshizen::storage::TodoStorage;
use libshizen::sync::handshake_peer_id;
use libshizen::{PeerId, PeerInfo, RusqliteStorage, ShizenResult, SyncResults};

/// Introduces `local` to `remote` (reachable at `remote_addr`), as the
/// command that adds a peer does: a handshake, then the peer is recorded.
fn add_peer(
    local: &mut RusqliteStorage,
    remote: &mut RusqliteStorage,
    remote_addr: &str,
    local_server: Option<&str>,
) -> ShizenResult<PeerId> {
    let request = local.handshake_request(local_server.map(|a| a.to_string()));
    let response = remote.answer_sync_request(request)?;
    let peer_id = handshake_peer_id(response)?;
    local.add_known_peer(peer_id, remote_addr)
}

/// Syncs `local` with the peer that `remote` is.
fn sync_with_peer(
    local: &mut RusqliteStorage,
    remote: &mut RusqliteStorage,
    peer: &PeerInfo,
) -> ShizenResult<SyncResults> {
    let stored = local.get_peer(&peer.peer_id)?;
    let request = local.sync_request(&stored.peer_id)?;
    let response = remote.answer_sync_request(request)?;
    local.apply_sync_response(&stored, response)
}

#[test]
fn peer_handshake() {
    let mut first = RusqliteStorage::open_in_memory();
    let first_pid = first.get_peer_id().unwrap();

    let mut second = RusqliteStorage::open_in_memory();

    let second_pid = second.get_peer_id().unwrap();

    let expected_first_pid =
        add_peer(&mut second, &mut first, "localhost:1701", Some("localhost:1801")).unwrap();
    assert_eq!(expected_first_pid, first_pid);

    let seconds_peers = second.get_peers().unwrap();
    assert_eq!(seconds_peers.len(), 1);
    assert_eq!(seconds_peers[0].peer_id, first_pid);
    assert_eq!(seconds_peers[0].clock, 0);
    assert_eq!(seconds_peers[0].addr, "localhost:1701");

    let peers = &first.get_peers().unwrap();

    assert_eq!(peers.len(), 1);
    assert_eq!(peers[0].peer_id, second_pid);
    assert_eq!(peers[0].clock, 0);
}

#[test]
fn peer_sync_one_way() {
    let mut first = RusqliteStorage::open_in_memory();

    let mut second = RusqliteStorage::open_in_memory();
    let sync_peer_id = add_peer(&mut second, &mut first, "localhost:1702", None).unwrap();
    let peer = second.get_peer(&sync_peer_id).unwrap();

    let picard = first
        .create_new_note("Picard", Some("Captain"), None)
        .unwrap();
    let riker = first
        .create_new_note("Riker", Some("Number One"), Some(&picard.id))
        .unwrap();
    let picard = first.load_note(&picard.id).unwrap();

    let sync_results = sync_with_peer(&mut second, &mut first, &peer).unwrap();
    assert_eq!(sync_results.num_changes, 2);
    assert_eq!(sync_results.updated_peer_clock, 2);

    let synced_notes = second.load_all_notes().unwrap();
    assert_eq!(synced_notes.len(), 2);

    let picard_synced = synced_notes.iter().find(|n| n.title == "Picard").unwrap();
    let riker_synced = synced_notes.iter().find(|n| n.title == "Riker").unwrap();
    assert_eq!(picard, picard_synced.clone());
    assert_eq!(riker, riker_synced.clone());
}

#[test]
fn peer_sync_local_added_notes_one_way() {
    let mut first = RusqliteStorage::open_in_memory();

    let mut second = RusqliteStorage::open_in_memory();
    let sync_peer_id = add_peer(&mut second, &mut first, "localhost:1703", None).unwrap();
    let peer = second.get_peer(&sync_peer_id).unwrap();

    let picard = first
        .create_new_note("Picard", Some("Captain"), None)
        .unwrap();
    let riker = first
        .create_new_note("Riker", Some("Number One"), Some(&picard.id))
        .unwrap();
    let picard = first.load_note(&picard.id).unwrap();

    let locally_added_bev = second.create_new_note("Bev", Some("Doc"), None).unwrap();
    let locally_added_wes = second
        .create_new_note("Wes", Some("Bearded"), None)
        .unwrap();

    let sync_results = sync_with_peer(&mut second, &mut first, &peer).unwrap();
    assert_eq!(sync_results.num_changes, 2);
    assert_eq!(sync_results.updated_peer_clock, 2);

    let all_notes_second = second.load_all_notes().unwrap();
    let picard_synced = all_notes_second
        .iter()
        .find(|n| n.title == "Picard")
        .unwrap();
    let riker_synced = all_notes_second
        .iter()
        .find(|n| n.title == "Riker")
        .unwrap();
    let bev_after_sync = all_notes_second.iter().find(|n| n.title == "Bev").unwrap();
    let wes_after_sync = all_notes_second.iter().find(|n| n.title == "Wes").unwrap();
    assert_eq!(all_notes_second.len(), 4);

    assert_eq!(picard, picard_synced.clone());
    assert_eq!(riker, riker_synced.clone());
    assert_eq!(locally_added_bev, bev_after_sync.clone());
    assert_eq!(locally_added_wes, wes_after_sync.clone());
}

#[test]
fn local_title_update_sync() {
    let mut first = RusqliteStorage::open_in_memory();
    let mut second = RusqliteStorage::open_in_memory();

    let sync_peer_id =
        add_peer(&mut second, &mut first, "localhost:1704", Some("localhost:1804")).unwrap();
    let peer = second.get_peer(&sync_peer_id).unwrap();

    let picard = first
        .create_new_note("Picard", Some("Captain"), None)
        .unwrap();
    let _riker = first
        .create_new_note("Riker", Some("Number One"), Some(&picard.id))
        .unwrap();
    let picard = first.load_note(&picard.id).unwrap();

    let sync_results = sync_with_peer(&mut second, &mut first, &peer).unwrap();
    assert_eq!(sync_results.num_changes, 2);
    assert_eq!(sync_results.updated_peer_clock, 2);

    second.update_title(&picard.id, "Locutus").unwrap();
    let second_clock = second.get_clock().unwrap();
    assert_eq!(second_clock, 3);
    let changes_that_would_sync = second.load_all_changes_since_clock(2).unwrap();
    assert_eq!(changes_that_would_sync.len(), 1);

    let second_peer_info = first.get_peer(&second.get_peer_id().unwrap()).unwrap();
    let backsync_results = sync_with_peer(&mut first, &mut second, &second_peer_info).unwrap();
    assert_eq!(backsync_results.num_changes, 1);
    assert_eq!(sync_results.updated_peer_clock, 2);
}

#[test]
fn local_desc_update_sync() {
    let mut first = RusqliteStorage::open_in_memory();

    let mut second = RusqliteStorage::open_in_memory();
    let first_sync_peer_id =
        add_peer(&mut second, &mut first, "localhost:1705", Some("localhost:1805")).unwrap();
    let first_peer = second.get_peer(&first_sync_peer_id).unwrap();

    let picard = first
        .create_new_note("Picard", Some("Captain"), None)
        .unwrap();
    let _riker = first
        .create_new_note("Riker", Some("Number One"), Some(&picard.id))
        .unwrap();
    let picard = first.load_note(&picard.id).unwrap();

    let sync_results = sync_with_peer(&mut second, &mut first, &first_peer).unwrap();
    assert_eq!(sync_results.num_changes, 2);
    assert_eq!(sync_results.updated_peer_clock, 2);

    second
        .update_description(&picard.id, Some("of borg"))
        .unwrap();
    let second_clock = second.get_clock().unwrap();
    assert_eq!(second_clock, 3);
    let changes_that_would_sync = second.load_all_changes_since_clock(2).unwrap();
    assert_eq!(changes_that_would_sync.len(), 1);

    let second_peer_info = first.get_peer(&second.get_peer_id().unwrap()).unwrap();
    let backsync_results = sync_with_peer(&mut first, &mut second, &second_peer_info).unwrap();
    assert_eq!(backsync_results.num_changes, 1);
    assert_eq!(sync_results.updated_peer_clock, 2);
}

#[test]
fn local_and_remote_keeps_local() {
    let mut first = RusqliteStorage::open_in_memory();
    let mut second = RusqliteStorage::open_in_memory();

    let sync_peer_id =
        add_peer(&mut second, &mut first, "localhost:1704", Some("localhost:1804")).unwrap();
    let peer = second.get_peer(&sync_peer_id).unwrap();

    let picard = first
        .create_new_note("Picard", Some("Captain"), None)
        .unwrap();
    let _riker = first
        .create_new_note("Riker", Some("Number One"), Some(&picard.id))
        .unwrap();
    let picard = first.load_note(&picard.id).unwrap();

    let sync_results = sync_with_peer(&mut second, &mut first, &peer).unwrap();
    assert_eq!(sync_results.num_changes, 2);
    assert_eq!(sync_results.updated_peer_clock, 2);

    second.update_title(&picard.id, "Locutus").unwrap();
    let second_clock = second.get_clock().unwrap();
    assert_eq!(second_clock, 3);
    let changes_that_would_sync = second.load_all_changes_since_clock(2).unwrap();
    assert_eq!(changes_that_would_sync.len(), 1);

    first.update_title(&picard.id, "Positronic").unwrap();

    let second_peer_info = first.get_peer(&second.get_peer_id().unwrap()).unwrap();
    let _ = sync_with_peer(&mut first, &mut second, &second_peer_info).unwrap();

    let picard_readback = first.load_note(&picard.id).unwrap();
    assert_eq!(picard_readback.title, "Positronic");

    let mutations = first.load_all_changes_since_clock(0).unwrap();
    assert_eq!(mutations.len(), 4);

    // Undoing should get the old title from remote in the history.
    first.undo().unwrap();
    let picard_readback_after_undo = first.load_note(&picard.id).unwrap();
    assert_eq!(picard_readback_after_undo.title, "Picard");
}
