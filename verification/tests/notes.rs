use paki_notes::commands::{
    create_bundle_with, create_note, create_note_with, delete_bundle, delete_note, get_note,
    list_notes, update_note, update_note_at,
};
use paki_notes::db::{Db, NoteRow};
use paki_notes::models::{NewNote, NoteUpdate};

fn s(x: &str) -> String {
    x.to_string()
}

fn payload(bundle: &str, title: &str) -> NewNote {
    NewNote { bundle_id: s(bundle), title: s(title), content: s("body") }
}

fn no_change() -> NoteUpdate {
    NoteUpdate { title: None, content: None, pinned: None, position: None }
}

fn store_with_bundle() -> Db {
    let mut db = Db::new();
    create_bundle_with(&mut db, s("b1"), s("t0"), s("Work"), None).unwrap();
    db
}

#[test]
fn notes_get_consecutive_positions() {
    let mut db = store_with_bundle();
    let a = create_note_with(&mut db, s("n1"), s("t1"), payload("b1", "A")).unwrap();
    let b = create_note_with(&mut db, s("n2"), s("t1"), payload("b1", "B")).unwrap();
    let c = create_note_with(&mut db, s("n3"), s("t1"), payload("b1", "C")).unwrap();
    assert_eq!((a.position, b.position, c.position), (0, 1, 2));
    assert_eq!(a.sync_version, 0);
    assert!(!a.pinned);
    assert!(a.tags.is_empty());
    assert_eq!(a.created_at, "t1");
    assert_eq!(a.updated_at, "t1");
    let got = get_note(&db, s("n2")).unwrap();
    assert_eq!(got, b);
}

#[test]
fn note_in_missing_bundle_is_refused() {
    let mut db = store_with_bundle();
    let e = create_note_with(&mut db, s("n1"), s("t1"), payload("nope", "A")).unwrap_err();
    assert_eq!(e, "FOREIGN KEY constraint failed");
    assert!(get_note(&db, s("n1")).is_err());
}

#[test]
fn duplicate_note_id_is_refused() {
    let mut db = store_with_bundle();
    create_note_with(&mut db, s("n1"), s("t1"), payload("b1", "A")).unwrap();
    let e = create_note_with(&mut db, s("n1"), s("t1"), payload("b1", "B")).unwrap_err();
    assert_eq!(e, "UNIQUE constraint failed: notes.id");
    assert_eq!(get_note(&db, s("n1")).unwrap().title, "A");
}

#[test]
fn missing_note_reads_as_no_rows() {
    let mut db = store_with_bundle();
    assert_eq!(get_note(&db, s("x")).unwrap_err(), "Query returned no rows");
    assert_eq!(update_note_at(&mut db, s("x"), no_change(), s("t")).unwrap_err(), "Query returned no rows");
}

#[test]
fn listing_puts_pinned_first_then_position() {
    let mut db = store_with_bundle();
    create_note_with(&mut db, s("n1"), s("t1"), payload("b1", "A")).unwrap();
    create_note_with(&mut db, s("n2"), s("t1"), payload("b1", "B")).unwrap();
    create_note_with(&mut db, s("n3"), s("t1"), payload("b1", "C")).unwrap();
    let pin = NoteUpdate { title: None, content: None, pinned: Some(true), position: None };
    update_note_at(&mut db, s("n3"), pin, s("t2")).unwrap();
    let mv = NoteUpdate { title: None, content: None, pinned: None, position: Some(-5) };
    update_note_at(&mut db, s("n2"), mv, s("t3")).unwrap();
    let ids: Vec<String> = list_notes(&db, s("b1")).unwrap().into_iter().map(|n| n.id).collect();
    assert_eq!(ids, vec![s("n3"), s("n2"), s("n1")]);
    assert!(list_notes(&db, s("other")).unwrap().is_empty());
}

#[test]
fn update_counts_text_changes_in_sync_version() {
    let mut db = store_with_bundle();
    create_note_with(&mut db, s("n1"), s("t1"), payload("b1", "A")).unwrap();
    let both = NoteUpdate { title: Some(s("T")), content: Some(s("C")), pinned: None, position: None };
    let n = update_note_at(&mut db, s("n1"), both, s("t2")).unwrap();
    assert_eq!(n.title, "T");
    assert_eq!(n.content, "C");
    assert_eq!(n.sync_version, 2);
    assert_eq!(n.updated_at, "t2");
    assert_eq!(n.created_at, "t1");
    let pin = NoteUpdate { title: None, content: None, pinned: Some(true), position: Some(7) };
    let n = update_note_at(&mut db, s("n1"), pin, s("t3")).unwrap();
    assert_eq!(n.sync_version, 2);
    assert!(n.pinned);
    assert_eq!(n.position, 7);
    assert_eq!(n.updated_at, "t3");
    let n = update_note_at(&mut db, s("n1"), no_change(), s("t4")).unwrap();
    assert_eq!(n.updated_at, "t3");
}

#[test]
fn update_with_current_time_changes_stamp() {
    let mut db = store_with_bundle();
    create_note_with(&mut db, s("n1"), s("t1"), payload("b1", "A")).unwrap();
    let u = NoteUpdate { title: Some(s("New")), content: None, pinned: None, position: None };
    let n = update_note(&mut db, s("n1"), u).unwrap();
    assert_eq!(n.title, "New");
    assert_eq!(n.sync_version, 1);
    assert!(n.updated_at.ends_with("+00:00"));
}

#[test]
fn create_note_with_fresh_id() {
    let mut db = store_with_bundle();
    let n = create_note(&mut db, payload("b1", "A")).unwrap();
    assert_eq!(n.id.len(), 36);
    assert_eq!(get_note(&db, n.id.clone()).unwrap(), n);
}

#[test]
fn next_position_past_the_largest_integer_fails() {
    let mut db = store_with_bundle();
    create_note_with(&mut db, s("n1"), s("t1"), payload("b1", "A")).unwrap();
    let mv = NoteUpdate { title: None, content: None, pinned: None, position: Some(i64::MAX) };
    update_note_at(&mut db, s("n1"), mv, s("t2")).unwrap();
    let e = create_note_with(&mut db, s("n2"), s("t3"), payload("b1", "B")).unwrap_err();
    assert_eq!(e, "Invalid column type Real at index: 0, name: COALESCE(MAX(position) + 1, 0)");
    assert_eq!(list_notes(&db, s("b1")).unwrap().len(), 1);
}

#[test]
fn sync_version_past_the_largest_integer_stops_reading() {
    let mut db = store_with_bundle();
    let row = NoteRow {
        id: s("n1"),
        bundle_id: s("b1"),
        title: s("A"),
        content: s(""),
        pinned: false,
        position: 0,
        created_at: s("t"),
        updated_at: s("t"),
        sync_version: Some(i64::MAX - 1),
    };
    db.insert_note(row).unwrap();
    let t = NoteUpdate { title: Some(s("B")), content: None, pinned: None, position: None };
    let n = update_note_at(&mut db, s("n1"), t.clone(), s("t1")).unwrap();
    assert_eq!(n.sync_version, i64::MAX);
    let e = update_note_at(&mut db, s("n1"), t, s("t2")).unwrap_err();
    assert_eq!(e, "Invalid column type Real at index: 8, name: sync_version");
    assert_eq!(get_note(&db, s("n1")).unwrap_err(), "Invalid column type Real at index: 8, name: sync_version");
    assert!(list_notes(&db, s("b1")).unwrap().is_empty());
    assert_eq!(db.note_rows()[0].title, "B");
}

#[test]
fn deleting_notes_and_bundles() {
    let mut db = store_with_bundle();
    create_bundle_with(&mut db, s("b2"), s("t0"), s("Home"), None).unwrap();
    create_note_with(&mut db, s("n1"), s("t1"), payload("b1", "A")).unwrap();
    create_note_with(&mut db, s("n2"), s("t1"), payload("b1", "B")).unwrap();
    create_note_with(&mut db, s("n3"), s("t1"), payload("b2", "C")).unwrap();
    delete_note(&mut db, s("n1")).unwrap();
    assert!(get_note(&db, s("n1")).is_err());
    delete_bundle(&mut db, s("b1")).unwrap();
    assert!(get_note(&db, s("n2")).is_err());
    assert_eq!(get_note(&db, s("n3")).unwrap().title, "C");
    assert_eq!(db.note_rows().len(), 1);
}
