use libshizen::storage::TodoStorage;
use libshizen::{Note, RusqliteStorage, ShizenError};

#[test]
fn database_init() {
    let s = RusqliteStorage::open_in_memory();
    assert_eq!(s.get_clock().unwrap(), 0);
}

#[test]
fn write_read_note() {
    let mut s = RusqliteStorage::open_in_memory();

    let picard_note = s
        .create_new_note("Picard", "captain of the enterprise".into(), None)
        .unwrap();

    let riker = s
        .create_new_note(
            "Riker",
            "Number One of the enterprise".into(),
            Some(&picard_note.id),
        )
        .unwrap();

    let expected = Note {
        children_ids: vec![riker.id.clone()],
        ..picard_note.clone()
    };
    assert_eq!(expected, s.load_note(&picard_note.id).unwrap());
    assert_eq!(expected, s.load_note(&riker.parent_id.unwrap()).unwrap());
}

#[test]
fn delete_note() {
    let mut s = RusqliteStorage::open_in_memory();
    let picard_note = s
        .create_new_note("Picard", "captain of the enterprise".into(), None)
        .unwrap();
    let riker = s
        .create_new_note(
            "Riker",
            "Number One of the enterprise".into(),
            Some(&picard_note.id),
        )
        .unwrap();

    s.delete_note(&riker.id).unwrap();

    assert!(matches!(
        s.load_note(&riker.id),
        Err(ShizenError::RusqliteError(_))
    ));
}

#[test]
fn delete_note_with_children() {
    let mut s = RusqliteStorage::open_in_memory();
    let picard_note = s
        .create_new_note("Picard", "captain of the enterprise".into(), None)
        .unwrap();
    let riker = s
        .create_new_note(
            "Riker",
            "Number One of the enterprise".into(),
            Some(&picard_note.id),
        )
        .unwrap();

    let worf = s
        .create_new_note("Worf", "Chief of security".into(), Some(&picard_note.id))
        .unwrap();

    assert_eq!(s.get_all_descendents(&picard_note.id).unwrap().len(), 2);

    s.delete_note(&picard_note.id).unwrap();

    assert_eq!(s.get_all_descendents(&picard_note.id).unwrap().len(), 0);
    assert_eq!(s.load_all_notes().unwrap().len(), 0);

    assert!(matches!(
        s.load_note(&picard_note.id),
        Err(ShizenError::RusqliteError(_))
    ));

    assert!(matches!(
        s.load_note(&riker.id),
        Err(ShizenError::RusqliteError(_))
    ));

    assert!(matches!(
        s.load_note(&worf.id),
        Err(ShizenError::RusqliteError(_))
    ));
}

#[test]
fn is_descendent_of() {
    let mut s = RusqliteStorage::open_in_memory();
    let picard_note = s
        .create_new_note("Picard", "captain of the enterprise".into(), None)
        .unwrap();
    let riker = s
        .create_new_note(
            "Riker",
            "Number One of the enterprise".into(),
            Some(&picard_note.id),
        )
        .unwrap();
    let worf = s
        .create_new_note("Worf", "Chief of security".into(), Some(&riker.id))
        .unwrap();

    let under_picard = s.get_all_descendents(&picard_note.id).unwrap();
    let under_riker = s.get_all_descendents(&riker.id).unwrap();
    assert!(under_picard.iter().any(|n| n.id == riker.id));
    assert!(under_picard.iter().any(|n| n.id == worf.id));
    assert!(under_riker.iter().any(|n| n.id == worf.id));
}

#[test]
fn update_title() {
    let mut s = RusqliteStorage::open_in_memory();
    let picard_note = s
        .create_new_note("Picard", "captain of the enterprise".into(), None)
        .unwrap();

    s.update_title(&picard_note.id, "Patrick").unwrap();

    let readback = s.load_note(&picard_note.id).unwrap();

    assert_eq!(readback.title, "Patrick");
}

#[test]
fn update_description() {
    let mut s = RusqliteStorage::open_in_memory();
    let picard_note = s
        .create_new_note("Picard", "captain of the enterprise".into(), None)
        .unwrap();

    s.update_description(&picard_note.id, Some("Former captain of the stargazer"))
        .unwrap();

    let readback = s.load_note(&picard_note.id).unwrap();

    assert_eq!(
        readback.description,
        Some("Former captain of the stargazer".to_string())
    );

    s.update_description(&picard_note.id, None).unwrap();

    let readback = s.load_note(&picard_note.id).unwrap();

    assert_eq!(readback.description, None);
}

#[test]
fn add_deps_work() {
    let mut s = RusqliteStorage::open_in_memory();
    let picard_note = s
        .create_new_note("Picard", "captain of the enterprise".into(), None)
        .unwrap();
    let bev = s
        .create_new_note("Beverly Crusher", "Capable and attractive doc".into(), None)
        .unwrap();

    s.add_blocked_note(&bev.id, &picard_note.id).unwrap();

    let readback_pic = s.load_note(&picard_note.id).unwrap();
    assert_eq!(readback_pic.notes_blocking_this, vec![bev.id.clone()]);
    assert_eq!(readback_pic.notes_this_blocks, vec![]);

    let readback_bev = s.load_note(&bev.id).unwrap();
    assert_eq!(readback_bev.notes_blocking_this, vec![]);
    assert_eq!(readback_bev.notes_this_blocks, vec![picard_note.id.clone()]);
}

#[test]
fn add_deps_loop_fails() {
    let mut s = RusqliteStorage::open_in_memory();
    let picard_note = s
        .create_new_note("Picard", "captain of the enterprise".into(), None)
        .unwrap();
    let bev = s
        .create_new_note("Beverly Crusher", "Capable and attractive doc".into(), None)
        .unwrap();

    s.add_blocked_note(&bev.id, &picard_note.id).unwrap();
    let r = s.add_blocked_note(&picard_note.id, &bev.id);
    assert!(r.is_err());

    let wesley = s
        .create_new_note("Wesley Crusher", "Kid".into(), None)
        .unwrap();

    s.add_blocked_note(&wesley.id, &bev.id).unwrap();
    let r = s.add_blocked_note(&picard_note.id, &wesley.id);

    assert!(r.is_err());
}

#[test]
fn remove_deps_work() {
    let mut s = RusqliteStorage::open_in_memory();
    let picard_note = s
        .create_new_note("Picard", "captain of the enterprise".into(), None)
        .unwrap();
    let bev = s
        .create_new_note("Beverly Crusher", "Capable and attractive doc".into(), None)
        .unwrap();

    s.add_blocked_note(&bev.id, &picard_note.id).unwrap();
    s.remove_blocked_note(&bev.id, &picard_note.id).unwrap();

    let readback_pic = s.load_note(&picard_note.id).unwrap();
    assert_eq!(readback_pic.notes_blocking_this, vec![]);
    assert_eq!(readback_pic.notes_this_blocks, vec![]);

    let readback_bev = s.load_note(&bev.id).unwrap();
    assert_eq!(readback_bev.notes_blocking_this, vec![]);
    assert_eq!(readback_bev.notes_this_blocks, vec![]);
}

#[test]
fn remove_deps_loop_allows_adding_dep() {
    let mut s = RusqliteStorage::open_in_memory();
    let picard_note = s
        .create_new_note("Picard", "captain of the enterprise".into(), None)
        .unwrap();
    let bev = s
        .create_new_note("Beverly Crusher", "Capable and attractive doc".into(), None)
        .unwrap();

    s.add_blocked_note(&bev.id, &picard_note.id).unwrap();
    let r = s.add_blocked_note(&picard_note.id, &bev.id);
    assert!(r.is_err());

    let wesley = s
        .create_new_note("Wesley Crusher", "Kid".into(), None)
        .unwrap();

    s.add_blocked_note(&wesley.id, &bev.id).unwrap();
    let r = s.add_blocked_note(&picard_note.id, &wesley.id);
    assert!(r.is_err());

    s.remove_blocked_note(&wesley.id, &bev.id).unwrap();
    s.add_blocked_note(&picard_note.id, &wesley.id).unwrap();
}

#[test]
fn undo_create() {
    let mut s = RusqliteStorage::open_in_memory();

    let clock = s.get_clock().unwrap();
    assert_eq!(0, clock);

    let picard_note = s
        .create_new_note("Picard", "captain of the enterprise".into(), None)
        .unwrap();
    let clock = s.get_clock().unwrap();
    assert_eq!(1, clock);

    let riker = s
        .create_new_note(
            "Riker",
            "Number One of the enterprise".into(),
            Some(&picard_note.id),
        )
        .unwrap();
    let clock = s.get_clock().unwrap();
    assert_eq!(2, clock);

    let bev = s
        .create_new_note("Beverly Crusher", "Capable and attractive doc".into(), None)
        .unwrap();
    let clock = s.get_clock().unwrap();
    assert_eq!(3, clock);

    s.add_blocked_note(&bev.id, &picard_note.id).unwrap();
    let clock = s.get_clock().unwrap();
    assert_eq!(4, clock);

    let before_undo_picard = s.load_note(&picard_note.id).unwrap();
    let before_undo_riker = s.load_note(&riker.id).unwrap();
    let before_undo_bev = s.load_note(&bev.id).unwrap();

    // Undo the dependency.
    s.undo().unwrap();

    let clock = s.get_clock().unwrap();
    assert_eq!(3, clock);

    let readback_picard = s.load_note(&picard_note.id).unwrap();
    let expected_picard = Note {
        notes_blocking_this: vec![],
        notes_this_blocks: vec![],
        ..before_undo_picard.clone()
    };
    let readback_riker = s.load_note(&riker.id).unwrap();
    let expected_riker = Note {
        ..before_undo_riker.clone()
    };
    let readback_bev = s.load_note(&bev.id).unwrap();
    let expected_bev = Note {
        notes_this_blocks: vec![],
        ..before_undo_bev.clone()
    };
    assert_eq!(readback_picard, expected_picard);
    assert_eq!(readback_riker, expected_riker);
    assert_eq!(readback_bev, expected_bev);

    // Undo the creation of bev.
    s.undo().unwrap();

    let clock = s.get_clock().unwrap();
    assert_eq!(2, clock);

    let readback_picard = s.load_note(&picard_note.id).unwrap();
    let expected_picard = Note {
        notes_blocking_this: vec![],
        notes_this_blocks: vec![],
        ..before_undo_picard.clone()
    };
    let readback_bev = s.load_note(&bev.id);
    assert_eq!(readback_picard, expected_picard);
    assert!(readback_bev.is_err());

    // Undo the creation of riker.
    s.undo().unwrap();

    let clock = s.get_clock().unwrap();
    assert_eq!(1, clock);

    let readback_picard = s.load_note(&picard_note.id).unwrap();
    let expected_picard = Note {
        notes_blocking_this: vec![],
        notes_this_blocks: vec![],
        children_ids: vec![],
        ..before_undo_picard.clone()
    };
    let readback_riker = s.load_note(&riker.id);
    assert!(readback_riker.is_err());
    assert_eq!(expected_picard, readback_picard);

    // Undo the creation of picard.
    s.undo().unwrap();

    let clock = s.get_clock().unwrap();
    assert_eq!(0, clock);

    let readback_picard = s.load_note(&picard_note.id);
    assert!(readback_picard.is_err());
}

#[test]
fn initialized_local_settings() {
    let s = RusqliteStorage::open_in_memory();
    s.get_peer_id().unwrap();
    let c = s.get_clock().unwrap();
    assert_eq!(c, 0);
}

#[test]
fn clock_increments() {
    let mut s = RusqliteStorage::open_in_memory();

    let clock = s.get_clock().unwrap();
    assert_eq!(clock, 0);

    let picard_note = s
        .create_new_note("Picard", "captain of the enterprise".into(), None)
        .unwrap();

    let clock = s.get_clock().unwrap();
    assert_eq!(clock, 1);

    let _riker = s
        .create_new_note(
            "Riker",
            "Number One of the enterprise".into(),
            Some(&picard_note.id),
        )
        .unwrap();

    let clock = s.get_clock().unwrap();
    assert_eq!(clock, 2);
}

#[test]
fn adjust_rank_between_test() {
    let mut s = RusqliteStorage::open_in_memory();

    let a = s.create_new_note("a", None, None).unwrap();
    let b = s.create_new_note("b", None, None).unwrap();
    let c = s.create_new_note("c", None, None).unwrap();

    let notes = s.load_all_notes().unwrap();
    assert_eq!(notes, vec![a.clone(), b.clone(), c.clone()]);

    s.adjust_rank_between(&a.id, Some(&b.id), Some(&c.id))
        .unwrap();

    let notes = s.load_all_notes().unwrap();
    assert_eq!(notes, vec![b.clone(), a.clone(), c.clone()]);

    s.adjust_rank_between(&c.id, None, Some(&b.id)).unwrap();
    let notes = s.load_all_notes().unwrap();
    assert_eq!(notes, vec![c.clone(), b.clone(), a.clone()]);

    s.adjust_rank_between(&c.id, Some(&a.id), None).unwrap();
    let notes = s.load_all_notes().unwrap();
    assert_eq!(notes, vec![b.clone(), a.clone(), c.clone()]);
}
