use paki_notes::commands::{
    create_bundle, create_bundle_with, create_note, create_note_with, get_note, list_bundles,
    list_notes, set_bundle_archived, update_note, update_note_at,
};
use paki_notes::db::Db;
use paki_notes::models::{NewNote, NoteUpdate};

fn s(x: &str) -> String {
    x.to_string()
}

fn is_uuid_v4(id: &str) -> bool {
    let c: Vec<char> = id.chars().collect();
    c.len() == 36
        && c.iter().enumerate().all(|(i, ch)| {
            if [8, 13, 18, 23].contains(&i) {
                *ch == '-'
            } else {
                ch.is_ascii_digit() || ('a'..='f').contains(ch)
            }
        })
        && c[14] == '4'
        && "89ab".contains(c[19])
}

fn is_utc_stamp(ts: &str) -> bool {
    let Some(body) = ts.strip_suffix("+00:00") else { return false };
    let (main, frac) = match body.split_once('.') {
        Some((m, f)) => (m, Some(f)),
        None => (body, None),
    };
    let frac_ok = frac.map_or(true, |f| [3, 6, 9].contains(&f.len()) && f.chars().all(|c| c.is_ascii_digit()));
    let c: Vec<char> = main.chars().collect();
    frac_ok
        && c.len() == 19
        && c[4] == '-'
        && c[7] == '-'
        && c[10] == 'T'
        && c[13] == ':'
        && c[16] == ':'
        && c.iter().enumerate().all(|(i, ch)| [4, 7, 10, 13, 16].contains(&i) || ch.is_ascii_digit())
}

#[test]
fn fresh_ids_and_stamps_have_their_shapes() {
    let mut db = Db::new();
    let b = create_bundle(&mut db, s("Work"), None).unwrap();
    assert!(is_uuid_v4(&b.id), "{}", b.id);
    assert!(is_utc_stamp(&b.created_at), "{}", b.created_at);
    let n = create_note(&mut db, NewNote { bundle_id: b.id.clone(), title: s("a"), content: s("") }).unwrap();
    assert!(is_uuid_v4(&n.id));
    assert!(is_utc_stamp(&n.updated_at));
}

#[test]
fn create_bundle_in_an_empty_store_succeeds() {
    let mut db = Db::new();
    assert!(create_bundle(&mut db, s("A"), Some(s("blue"))).is_ok());
}

#[test]
fn repeated_layout_update_only_moves_the_stamp() {
    let mut db = Db::new();
    create_bundle_with(&mut db, s("b1"), s("t0"), s("W"), None).unwrap();
    create_note_with(&mut db, s("n1"), s("t1"), NewNote { bundle_id: s("b1"), title: s("a"), content: s("c") }).unwrap();
    let u = NoteUpdate { title: None, content: None, pinned: Some(true), position: Some(3) };
    let r1 = update_note_at(&mut db, s("n1"), u.clone(), s("t2")).unwrap();
    let r2 = update_note_at(&mut db, s("n1"), u, s("t3")).unwrap();
    let mut expected = r1.clone();
    expected.updated_at = s("t3");
    assert_eq!(r2, expected);
}

#[test]
fn unarchived_listing_is_the_filter_of_the_full_one() {
    let mut db = Db::new();
    create_bundle_with(&mut db, s("b1"), s("t"), s("A"), None).unwrap();
    create_bundle_with(&mut db, s("b2"), s("t"), s("B"), None).unwrap();
    create_bundle_with(&mut db, s("b3"), s("t"), s("C"), None).unwrap();
    set_bundle_archived(&mut db, s("b2"), true).unwrap();
    let all = list_bundles(&db, true).unwrap();
    let live = list_bundles(&db, false).unwrap();
    let filtered: Vec<_> = all.into_iter().filter(|b| !b.archived).collect();
    assert_eq!(live, filtered);
}

#[test]
fn archive_then_list() {
    let mut db = Db::new();
    create_bundle_with(&mut db, s("b1"), s("t"), s("A"), None).unwrap();
    set_bundle_archived(&mut db, s("b1"), true).unwrap();
    let all = list_bundles(&db, true).unwrap();
    assert_eq!(all.iter().filter(|b| b.id == "b1").count(), 1);
    assert!(all[0].archived);
    assert!(list_bundles(&db, false).unwrap().is_empty());
    set_bundle_archived(&mut db, s("b1"), false).unwrap();
    assert_eq!(list_bundles(&db, false).unwrap().len(), 1);
}

#[test]
fn created_note_is_listed_last() {
    let mut db = Db::new();
    create_bundle_with(&mut db, s("b1"), s("t"), s("A"), None).unwrap();
    for i in 0..3 {
        create_note_with(&mut db, format!("n{i}"), s("t"), NewNote { bundle_id: s("b1"), title: s("x"), content: s("") }).unwrap();
    }
    let pin = NoteUpdate { title: None, content: None, pinned: Some(true), position: Some(99) };
    update_note_at(&mut db, s("n1"), pin, s("t2")).unwrap();
    let n = create_note(&mut db, NewNote { bundle_id: s("b1"), title: s("new"), content: s("") }).unwrap();
    assert_eq!(n.position, 100);
    let v = list_notes(&db, s("b1")).unwrap();
    assert_eq!(v.last(), Some(&n));
}

#[test]
fn update_then_get_agree() {
    let mut db = Db::new();
    create_bundle_with(&mut db, s("b1"), s("t"), s("A"), None).unwrap();
    create_note_with(&mut db, s("n1"), s("t"), NewNote { bundle_id: s("b1"), title: s("x"), content: s("") }).unwrap();
    let u = NoteUpdate { title: Some(s("y")), content: None, pinned: None, position: None };
    let r = update_note(&mut db, s("n1"), u).unwrap();
    assert_eq!(get_note(&db, s("n1")).unwrap(), r);
}
