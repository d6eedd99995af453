use paki_notes::commands::{
    assign_tag, create_bundle_with, create_note_with, create_tag, create_tag_with, delete_bundle,
    delete_note, delete_tag, get_note, list_tags, remove_tag,
};
use paki_notes::db::Db;
use paki_notes::models::NewNote;

fn s(x: &str) -> String {
    x.to_string()
}

fn store() -> Db {
    let mut db = Db::new();
    create_bundle_with(&mut db, s("b1"), s("t0"), s("Work"), None).unwrap();
    create_bundle_with(&mut db, s("b2"), s("t0"), s("Home"), None).unwrap();
    let p = NewNote { bundle_id: s("b1"), title: s("A"), content: s("") };
    create_note_with(&mut db, s("n1"), s("t1"), p).unwrap();
    create_tag_with(&mut db, s("g1"), s("b1"), s("urgent"), Some(s("red"))).unwrap();
    create_tag_with(&mut db, s("g2"), s("b1"), s("later"), None).unwrap();
    create_tag_with(&mut db, s("g3"), s("b2"), s("garden"), None).unwrap();
    db
}

fn tag_names(db: &Db, note: &str) -> Vec<String> {
    get_note(db, s(note)).unwrap().tags.into_iter().map(|t| t.name).collect()
}

#[test]
fn tags_are_listed_per_bundle_by_name() {
    let db = store();
    let names: Vec<String> = list_tags(&db, s("b1")).unwrap().into_iter().map(|t| t.name).collect();
    assert_eq!(names, vec![s("later"), s("urgent")]);
    assert_eq!(list_tags(&db, s("b2")).unwrap().len(), 1);
    assert!(list_tags(&db, s("b9")).unwrap().is_empty());
}

#[test]
fn tag_in_missing_bundle_is_refused() {
    let mut db = store();
    assert_eq!(create_tag_with(&mut db, s("g9"), s("b9"), s("x"), None).unwrap_err(), "FOREIGN KEY constraint failed");
    assert_eq!(create_tag_with(&mut db, s("g1"), s("b1"), s("x"), None).unwrap_err(), "UNIQUE constraint failed: tags.id");
    let t = create_tag(&mut db, s("b2"), s("fresh"), None).unwrap();
    assert_eq!(t.id.len(), 36);
    assert_eq!(t.bundle_id, "b2");
    let listed = list_tags(&db, s("b2")).unwrap();
    assert!(listed.contains(&t));
    assert_eq!(listed.len(), 2);
}

#[test]
fn assigning_is_idempotent_and_removal_undoes_it() {
    let mut db = store();
    assign_tag(&mut db, s("n1"), s("g1")).unwrap();
    assign_tag(&mut db, s("n1"), s("g2")).unwrap();
    assign_tag(&mut db, s("n1"), s("g1")).unwrap();
    assert_eq!(db.note_tag_rows().len(), 2);
    assert_eq!(tag_names(&db, "n1"), vec![s("later"), s("urgent")]);
    remove_tag(&mut db, s("n1"), s("g1")).unwrap();
    assert_eq!(tag_names(&db, "n1"), vec![s("later")]);
    remove_tag(&mut db, s("n1"), s("g1")).unwrap();
    assert_eq!(db.note_tag_rows().len(), 1);
}

#[test]
fn assigning_to_missing_rows_is_refused() {
    let mut db = store();
    assert_eq!(assign_tag(&mut db, s("n9"), s("g1")).unwrap_err(), "FOREIGN KEY constraint failed");
    assert_eq!(assign_tag(&mut db, s("n1"), s("g9")).unwrap_err(), "FOREIGN KEY constraint failed");
    assert!(db.note_tag_rows().is_empty());
}

#[test]
fn tag_of_another_bundle_is_refused() {
    let mut db = store();
    assign_tag(&mut db, s("n1"), s("g1")).unwrap();
    let e = assign_tag(&mut db, s("n1"), s("g3")).unwrap_err();
    assert_eq!(e, "the tag belongs to another bundle than the note");
    assert_eq!(tag_names(&db, "n1"), vec![s("urgent")]);
    assert_eq!(db.note_tag_rows().len(), 1);
}

#[test]
fn deletes_cascade_to_assignments() {
    let mut db = store();
    let p = NewNote { bundle_id: s("b2"), title: s("B"), content: s("") };
    create_note_with(&mut db, s("n2"), s("t1"), p).unwrap();
    assign_tag(&mut db, s("n1"), s("g1")).unwrap();
    assign_tag(&mut db, s("n1"), s("g2")).unwrap();
    assign_tag(&mut db, s("n2"), s("g3")).unwrap();
    delete_tag(&mut db, s("g1")).unwrap();
    assert_eq!(tag_names(&db, "n1"), vec![s("later")]);
    delete_bundle(&mut db, s("b2")).unwrap();
    assert!(get_note(&db, s("n2")).is_err());
    assert_eq!(db.note_tag_rows().len(), 1);
    delete_note(&mut db, s("n1")).unwrap();
    assert!(db.note_tag_rows().is_empty());
    assert_eq!(db.tag_rows().len(), 1);
}
