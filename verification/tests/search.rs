use paki_notes::commands::{create_bundle_with, create_note_with, search_notes, update_note_at};
use paki_notes::db::Db;
use paki_notes::like::{like_exec, pattern_too_long_exec, search_pattern_exec};
use paki_notes::models::{NewNote, NoteUpdate};
use paki_notes::order::text_le_exec;

fn s(x: &str) -> String {
    x.to_string()
}

fn note(db: &mut Db, id: &str, title: &str, content: &str, ts: &str) {
    let p = NewNote { bundle_id: s("b1"), title: s(title), content: s(content) };
    create_note_with(db, s(id), s(ts), p).unwrap();
}

fn store() -> Db {
    let mut db = Db::new();
    create_bundle_with(&mut db, s("b1"), s("t0"), s("Work"), None).unwrap();
    db
}

#[test]
fn like_follows_sqlite() {
    assert!(like_exec("%abc%", "xxABCxx"));
    assert!(like_exec("a_c", "abc"));
    assert!(!like_exec("a_c", "ac"));
    assert!(like_exec("%", ""));
    assert!(!like_exec("", "a"));
    assert!(like_exec("", ""));
    assert!(like_exec("a%c%e", "abcde"));
    assert!(!like_exec("a%c%e", "abcd"));
    assert!(like_exec("%É%", "café É"));
    assert!(!like_exec("%é%", "CAFÉ"));
    assert!(like_exec("%Z%", "az"));
    assert!(!like_exec("%milk%", "a\0milk"));
    assert!(like_exec("%ab\0zz", "xxab"));
    assert!(like_exec("a", "a\0tail"));
}

#[test]
fn pattern_is_wrapped_in_percent() {
    assert_eq!(search_pattern_exec("abc"), "%abc%");
    assert_eq!(search_pattern_exec(""), "%%");
}

#[test]
fn pattern_length_limit_counts_utf8_bytes() {
    let ok = "a".repeat(50000);
    assert!(!pattern_too_long_exec(&ok));
    let long = "a".repeat(50001);
    assert!(pattern_too_long_exec(&long));
    let wide = "é".repeat(25001);
    assert!(pattern_too_long_exec(&wide));
    let wide_ok = "é".repeat(25000);
    assert!(!pattern_too_long_exec(&wide_ok));
}

#[test]
fn text_order_is_code_point_order() {
    assert!(text_le_exec("Apple", "apple"));
    assert!(!text_le_exec("apple", "Apple"));
    assert!(text_le_exec("app", "apple"));
    assert!(text_le_exec("", ""));
    assert!(text_le_exec("z", "é"));
}

#[test]
fn search_matches_title_or_content_latest_first() {
    let mut db = store();
    note(&mut db, "n1", "Groceries", "milk", "2024-01-01");
    note(&mut db, "n2", "Todo", "buy MILK", "2024-03-01");
    note(&mut db, "n3", "Other", "nothing", "2024-02-01");
    let ids: Vec<String> = search_notes(&db, s("milk")).unwrap().into_iter().map(|n| n.id).collect();
    assert_eq!(ids, vec![s("n2"), s("n1")]);
    let all: Vec<String> = search_notes(&db, s("")).unwrap().into_iter().map(|n| n.id).collect();
    assert_eq!(all, vec![s("n2"), s("n3"), s("n1")]);
    let wild: Vec<String> = search_notes(&db, s("o_h")).unwrap().into_iter().map(|n| n.id).collect();
    assert_eq!(wild, vec![s("n3")]);
}

#[test]
fn search_stops_at_nul() {
    let mut db = store();
    note(&mut db, "n1", "a\0milk", "", "t1");
    note(&mut db, "n2", "milk", "", "t2");
    let ids: Vec<String> = search_notes(&db, s("milk")).unwrap().into_iter().map(|n| n.id).collect();
    assert_eq!(ids, vec![s("n2")]);
}

#[test]
fn search_returns_at_most_a_hundred() {
    let mut db = store();
    for i in 0..120 {
        let ts = format!("2024-01-01T00:00:{:03}", i);
        note(&mut db, &format!("n{i}"), "same", "", &ts);
    }
    let found = search_notes(&db, s("same")).unwrap();
    assert_eq!(found.len(), 100);
    assert_eq!(found[0].id, "n119");
    assert_eq!(found[99].id, "n20");
    let upd = NoteUpdate { title: None, content: None, pinned: Some(true), position: None };
    update_note_at(&mut db, s("n0"), upd, s("2025")).unwrap();
    assert_eq!(search_notes(&db, s("same")).unwrap()[0].id, "n0");
}

#[test]
fn overlong_query_finds_nothing() {
    let mut db = store();
    let long = "é".repeat(25000);
    note(&mut db, "n1", "t", &long, "t");
    assert_eq!(search_notes(&db, "é".repeat(24999)).unwrap().len(), 1);
    assert!(search_notes(&db, "é".repeat(25000)).unwrap().is_empty());
}
