//! The laws of the store, each on concrete values.
use libshizen::storage::TodoStorage;
use libshizen::{Action, RusqliteStorage, ShizenError};

fn two_notes(s: &mut RusqliteStorage) -> (libshizen::Note, libshizen::Note) {
    let a = s.create_new_note("Data", Some("Android"), None).unwrap();
    let b = s.create_new_note("Geordi", None, None).unwrap();
    (a, b)
}

#[test]
fn undo_then_redo_set_completed() {
    let mut s = RusqliteStorage::open_in_memory();
    let (a, _) = two_notes(&mut s);
    let before = s.load_note(&a.id).unwrap();
    s.set_completed(&a.id, true).unwrap();
    let after = s.load_note(&a.id).unwrap();
    assert!(after.completed);
    assert_eq!(s.undo().unwrap(), 2);
    assert_eq!(s.load_note(&a.id).unwrap(), before);
    assert_eq!(s.load_redo_queue().unwrap().len(), 1);
    assert_eq!(s.redo().unwrap(), 3);
    assert_eq!(s.load_note(&a.id).unwrap(), after);
    assert_eq!(s.load_redo_queue().unwrap().len(), 0);
}

#[test]
fn undo_then_redo_update_title() {
    let mut s = RusqliteStorage::open_in_memory();
    let (a, _) = two_notes(&mut s);
    s.update_title(&a.id, "Lore").unwrap();
    s.undo().unwrap();
    assert_eq!(s.load_note(&a.id).unwrap().title, "Data");
    s.redo().unwrap();
    assert_eq!(s.load_note(&a.id).unwrap().title, "Lore");
}

#[test]
fn undo_then_redo_update_description() {
    let mut s = RusqliteStorage::open_in_memory();
    let (a, _) = two_notes(&mut s);
    s.update_description(&a.id, None).unwrap();
    s.undo().unwrap();
    assert_eq!(s.load_note(&a.id).unwrap().description, Some("Android".to_string()));
    s.redo().unwrap();
    assert_eq!(s.load_note(&a.id).unwrap().description, None);
}

#[test]
fn undo_then_redo_update_parent() {
    let mut s = RusqliteStorage::open_in_memory();
    let (a, b) = two_notes(&mut s);
    s.update_parent(&b.id, Some(&a.id)).unwrap();
    assert_eq!(s.load_note(&a.id).unwrap().children_ids, vec![b.id]);
    s.undo().unwrap();
    assert_eq!(s.load_note(&b.id).unwrap().parent_id, None);
    assert_eq!(s.load_note(&a.id).unwrap().children_ids, vec![]);
    s.redo().unwrap();
    assert_eq!(s.load_note(&b.id).unwrap().parent_id, Some(a.id));
}

#[test]
fn undo_then_redo_adjust_rank() {
    let mut s = RusqliteStorage::open_in_memory();
    let (a, b) = two_notes(&mut s);
    s.adjust_rank_between(&a.id, Some(&b.id), None).unwrap();
    let order: Vec<_> = s.load_all_notes().unwrap().into_iter().map(|n| n.id).collect();
    assert_eq!(order, vec![b.id, a.id]);
    s.undo().unwrap();
    let order: Vec<_> = s.load_all_notes().unwrap().into_iter().map(|n| n.id).collect();
    assert_eq!(order, vec![a.id, b.id]);
    s.redo().unwrap();
    let order: Vec<_> = s.load_all_notes().unwrap().into_iter().map(|n| n.id).collect();
    assert_eq!(order, vec![b.id, a.id]);
}

#[test]
fn undo_then_redo_dependencies() {
    let mut s = RusqliteStorage::open_in_memory();
    let (a, b) = two_notes(&mut s);
    s.add_blocked_note(&a.id, &b.id).unwrap();
    s.undo().unwrap();
    assert_eq!(s.load_note(&b.id).unwrap().notes_blocking_this, vec![]);
    s.redo().unwrap();
    assert_eq!(s.load_note(&b.id).unwrap().notes_blocking_this, vec![a.id]);
    s.remove_blocked_note(&a.id, &b.id).unwrap();
    s.undo().unwrap();
    assert_eq!(s.load_note(&b.id).unwrap().notes_blocking_this, vec![a.id]);
    s.redo().unwrap();
    assert_eq!(s.load_note(&b.id).unwrap().notes_blocking_this, vec![]);
}

#[test]
fn undo_then_redo_create_note() {
    let mut s = RusqliteStorage::open_in_memory();
    let (a, _) = two_notes(&mut s);
    let c = s.create_new_note("Worf", None, Some(&a.id)).unwrap();
    s.undo().unwrap();
    assert!(!s.note_exists(&c.id).unwrap());
    assert_eq!(s.load_note(&a.id).unwrap().children_ids, vec![]);
    s.redo().unwrap();
    assert_eq!(s.load_note(&c.id).unwrap(), c);
    assert_eq!(s.load_note(&a.id).unwrap().children_ids, vec![c.id]);
}

#[test]
fn undo_and_redo_with_nothing_to_do() {
    let mut s = RusqliteStorage::open_in_memory();
    assert_eq!(s.undo().unwrap(), 0);
    assert_eq!(s.redo().unwrap(), 0);
    assert_eq!(s.get_clock().unwrap(), 0);
}

#[test]
fn dependency_cycles_are_refused() {
    let mut s = RusqliteStorage::open_in_memory();
    let (a, b) = two_notes(&mut s);
    let c = s.create_new_note("Worf", None, None).unwrap();
    s.add_blocked_note(&a.id, &b.id).unwrap();
    s.add_blocked_note(&b.id, &c.id).unwrap();
    assert!(matches!(
        s.add_blocked_note(&c.id, &a.id),
        Err(ShizenError::DependencyCircularReference(x, y)) if x == c.id && y == a.id
    ));
    assert_eq!(s.get_clock().unwrap(), 5);
    let blocked = s.get_all_blocked(&a.id, true).unwrap();
    assert_eq!(blocked.len(), 2);
    let direct = s.get_all_blocked(&a.id, false).unwrap();
    assert_eq!(direct.len(), 1);
    assert_eq!(direct[0].id, b.id);
}

#[test]
fn a_note_may_not_block_itself() {
    let mut s = RusqliteStorage::open_in_memory();
    let (a, _) = two_notes(&mut s);
    assert!(matches!(
        s.add_blocked_note(&a.id, &a.id),
        Err(ShizenError::DependencyCircularReference(x, y)) if x == a.id && y == a.id
    ));
    assert_eq!(s.load_note(&a.id).unwrap().notes_blocking_this, vec![]);
    assert_eq!(s.get_clock().unwrap(), 2);
}

#[test]
fn a_note_may_not_be_its_own_parent() {
    let mut s = RusqliteStorage::open_in_memory();
    let (a, _) = two_notes(&mut s);
    let before = s.load_all_notes().unwrap();
    assert!(matches!(
        s.update_parent(&a.id, Some(&a.id)),
        Err(ShizenError::ParentCircularReference(p, c)) if p == a.id && c == a.id
    ));
    assert_eq!(s.load_all_notes().unwrap(), before);
    assert_eq!(s.get_clock().unwrap(), 2);
}

#[test]
fn hierarchy_cycles_are_refused() {
    let mut s = RusqliteStorage::open_in_memory();
    let (a, b) = two_notes(&mut s);
    let c = s.create_new_note("Worf", None, Some(&b.id)).unwrap();
    s.update_parent(&b.id, Some(&a.id)).unwrap();
    assert!(matches!(
        s.update_parent(&a.id, Some(&c.id)),
        Err(ShizenError::ParentCircularReference(p, ch)) if p == c.id && ch == a.id
    ));
    assert_eq!(s.load_note(&a.id).unwrap().parent_id, None);
    assert_eq!(s.get_all_descendents(&a.id).unwrap().len(), 2);
}

#[test]
fn delete_takes_the_subtree_and_its_dependencies() {
    let mut s = RusqliteStorage::open_in_memory();
    let (a, b) = two_notes(&mut s);
    let c = s.create_new_note("Worf", None, Some(&a.id)).unwrap();
    s.add_blocked_note(&c.id, &b.id).unwrap();
    s.delete_note(&a.id).unwrap();
    assert!(!s.note_exists(&a.id).unwrap());
    assert!(!s.note_exists(&c.id).unwrap());
    let rest = s.load_note(&b.id).unwrap();
    assert_eq!(rest.notes_blocking_this, vec![]);
    assert_eq!(s.load_all_notes().unwrap().len(), 1);
    match s.load_all_changes_since_clock(4).unwrap().as_slice() {
        [Action::DeleteNote { note, .. }] => {
            assert_eq!(note.id, a.id);
            assert_eq!(note.children_ids, vec![c.id]);
        },
        other => panic!("unexpected log {:?}", other),
    }
}

#[test]
fn created_note_reads_back() {
    let mut s = RusqliteStorage::open_in_memory();
    let (a, _) = two_notes(&mut s);
    let c = s.create_new_note("Worf", Some("Klingon"), Some(&a.id)).unwrap();
    assert_eq!(c.title, "Worf");
    assert_eq!(c.description, Some("Klingon".to_string()));
    assert_eq!(c.parent_id, Some(a.id));
    assert!(!c.completed);
    assert_eq!(s.load_note(&c.id).unwrap(), c);
}

#[test]
fn notes_are_listed_in_rank_order() {
    let mut s = RusqliteStorage::open_in_memory();
    let a = s.create_new_note("a", None, None).unwrap();
    let b = s.create_new_note("b", None, None).unwrap();
    let c = s.create_new_note("c", None, None).unwrap();
    let d = s.create_new_note("d", None, None).unwrap();
    s.adjust_rank_between(&d.id, Some(&a.id), Some(&b.id)).unwrap();
    s.adjust_rank_between(&a.id, Some(&c.id), None).unwrap();
    let order: Vec<_> = s.load_all_notes().unwrap().into_iter().map(|n| n.title).collect();
    assert_eq!(order, vec!["d", "b", "c", "a"]);
}

#[test]
fn completed_and_blocked_notes_are_filtered() {
    let mut s = RusqliteStorage::open_in_memory();
    let (a, b) = two_notes(&mut s);
    let c = s.create_new_note("Worf", None, None).unwrap();
    s.add_blocked_note(&a.id, &b.id).unwrap();
    s.set_completed(&c.id, true).unwrap();
    let unblocked: Vec<_> = s
        .load_all_unblocked_notes(false)
        .unwrap()
        .into_iter()
        .map(|n| n.id)
        .collect();
    assert_eq!(unblocked, vec![a.id]);
    let with_completed: Vec<_> = s
        .load_all_unblocked_notes(true)
        .unwrap()
        .into_iter()
        .map(|n| n.id)
        .collect();
    assert_eq!(with_completed, vec![a.id, c.id]);
    assert_eq!(s.load_all_complete_notes().unwrap().len(), 1);
    assert_eq!(s.load_all_incomplete_notes().unwrap().len(), 2);
    s.set_completed(&a.id, true).unwrap();
    let unblocked: Vec<_> = s
        .load_all_unblocked_notes(false)
        .unwrap()
        .into_iter()
        .map(|n| n.id)
        .collect();
    assert_eq!(unblocked, vec![b.id]);
}

#[test]
fn applied_changes_are_recorded_in_order() {
    let mut s = RusqliteStorage::open_in_memory();
    let (a, _) = two_notes(&mut s);
    s.apply_action(&Action::UpdateTitle {
        id: a.id,
        old_title: "Data".to_string(),
        new_title: "B4".to_string(),
    })
    .unwrap();
    assert_eq!(s.get_clock().unwrap(), 3);
    assert_eq!(s.load_note(&a.id).unwrap().title, "B4");
    let log = s.load_all_changes_since_clock(1).unwrap();
    assert_eq!(log.len(), 2);
    assert!(matches!(&log[1], Action::UpdateTitle { new_title, .. } if new_title == "B4"));
    assert_eq!(s.load_all_changes_since_clock(9).unwrap().len(), 0);
}

#[test]
fn undo_of_a_deletion_restores_the_note() {
    let mut s = RusqliteStorage::open_in_memory();
    let (a, b) = two_notes(&mut s);
    let c = s.create_new_note("Worf", Some("Klingon"), Some(&a.id)).unwrap();
    s.add_blocked_note(&b.id, &c.id).unwrap();
    s.add_blocked_note(&c.id, &a.id).unwrap();
    let before = s.load_note(&c.id).unwrap();
    let all_before = s.load_all_notes().unwrap();
    s.delete_note(&c.id).unwrap();
    assert!(!s.note_exists(&c.id).unwrap());
    assert_eq!(s.undo().unwrap(), 5);
    assert_eq!(s.load_note(&c.id).unwrap(), before);
    assert_eq!(s.load_note(&a.id).unwrap().children_ids, vec![c.id]);
    let order: Vec<_> = s.load_all_notes().unwrap().into_iter().map(|n| n.id).collect();
    assert_eq!(order, vec![a.id, b.id, c.id]);
    assert_eq!(s.load_all_notes().unwrap(), all_before);
}

#[test]
fn undo_of_a_deletion_with_children_is_refused() {
    let mut s = RusqliteStorage::open_in_memory();
    let (a, _) = two_notes(&mut s);
    s.create_new_note("Worf", None, Some(&a.id)).unwrap();
    s.delete_note(&a.id).unwrap();
    assert!(matches!(
        s.undo(),
        Err(libshizen::ShizenError::RusqliteError(libshizen::DbError::ForeignKeyConstraintFailed))
    ));
    assert_eq!(s.get_clock().unwrap(), 4);
}

#[test]
fn undo_and_redo_a_whole_history() {
    let mut s = RusqliteStorage::open_in_memory();
    let (a, b) = two_notes(&mut s);
    let start = s.load_all_notes().unwrap();
    let start_log = s.load_all_changes_since_clock(0).unwrap();
    s.set_completed(&a.id, true).unwrap();
    s.update_title(&b.id, "La Forge").unwrap();
    s.update_parent(&b.id, Some(&a.id)).unwrap();
    s.add_blocked_note(&a.id, &b.id).unwrap();
    s.adjust_rank_between(&a.id, Some(&b.id), None).unwrap();
    let end = s.load_all_notes().unwrap();
    let end_log = s.load_all_changes_since_clock(0).unwrap();
    for _ in 0..5 {
        s.undo().unwrap();
    }
    assert_eq!(s.load_all_notes().unwrap(), start);
    assert_eq!(s.load_all_changes_since_clock(0).unwrap(), start_log);
    assert_eq!(s.load_redo_queue().unwrap().len(), 5);
    for _ in 0..5 {
        s.redo().unwrap();
    }
    assert_eq!(s.load_all_notes().unwrap(), end);
    assert_eq!(s.load_all_changes_since_clock(0).unwrap(), end_log);
    assert_eq!(s.load_redo_queue().unwrap().len(), 0);
}
