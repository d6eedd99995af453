use paki_notes::commands::{create_bundle, create_bundle_with, list_bundles, rename_bundle_at, set_bundle_archived_at, delete_bundle};
use paki_notes::db::Db;

fn s(x: &str) -> String {
    x.to_string()
}

#[test]
fn bundles_list_by_name_and_hide_archived() {
    let mut db = Db::new();
    create_bundle_with(&mut db, s("b1"), s("t1"), s("Work"), None).unwrap();
    create_bundle_with(&mut db, s("b2"), s("t1"), s("Home"), Some(s("#ff0000"))).unwrap();
    create_bundle_with(&mut db, s("b3"), s("t1"), s("Archive"), None).unwrap();
    set_bundle_archived_at(&mut db, s("b3"), true, s("t2")).unwrap();
    let all = list_bundles(&db, true).unwrap();
    let names: Vec<&str> = all.iter().map(|b| b.name.as_str()).collect();
    assert_eq!(names, vec!["Archive", "Home", "Work"]);
    assert!(all[0].archived);
    assert_eq!(all[0].updated_at, "t2");
    let live = list_bundles(&db, false).unwrap();
    let names: Vec<&str> = live.iter().map(|b| b.name.as_str()).collect();
    assert_eq!(names, vec!["Home", "Work"]);
}

#[test]
fn created_bundle_has_fresh_id_and_time() {
    let mut db = Db::new();
    let b = create_bundle(&mut db, s("Ideas"), None).unwrap();
    assert_eq!(b.id.chars().count(), 36);
    assert_eq!(b.id.chars().nth(14), Some('4'));
    assert!(b.created_at.ends_with("+00:00"));
    assert_eq!(b.created_at, b.updated_at);
    assert!(!b.archived);
    let c = create_bundle(&mut db, s("Ideas"), None).unwrap();
    assert_ne!(b.id, c.id);
    assert_eq!(list_bundles(&db, false).unwrap().len(), 2);
}

#[test]
fn duplicate_bundle_id_is_refused() {
    let mut db = Db::new();
    create_bundle_with(&mut db, s("b1"), s("t"), s("A"), None).unwrap();
    let e = create_bundle_with(&mut db, s("b1"), s("t"), s("B"), None).unwrap_err();
    assert_eq!(e, "UNIQUE constraint failed: bundles.id");
    assert_eq!(list_bundles(&db, true).unwrap().len(), 1);
}

#[test]
fn rename_and_delete_bundle() {
    let mut db = Db::new();
    create_bundle_with(&mut db, s("b1"), s("t"), s("A"), None).unwrap();
    rename_bundle_at(&mut db, s("b1"), s("Z"), s("t9")).unwrap();
    rename_bundle_at(&mut db, s("nope"), s("Y"), s("t9")).unwrap();
    let v = list_bundles(&db, true).unwrap();
    assert_eq!(v[0].name, "Z");
    assert_eq!(v[0].updated_at, "t9");
    assert_eq!(v[0].created_at, "t");
    delete_bundle(&mut db, s("b1")).unwrap();
    assert!(list_bundles(&db, true).unwrap().is_empty());
}
