use vstd::prelude::*;
use crate::models::{Bundle, NewNote, Note, NoteUpdate, Tag};
use crate::db::{
    Db, DbModel, DbError, NoteChange, NoteRow, error_message, spec_insert_bundle, spec_rename_bundle,
    spec_set_bundle_archived, spec_delete_bundle, spec_next_position, spec_insert_note,
    spec_change_note, spec_delete_note, spec_insert_tag, spec_delete_tag, spec_assign, spec_unassign,
};
use crate::query::{
    is_bundle_listing, is_note_listing, is_note_read, is_search_result, is_tag_listing_of_bundle,
    row_of_note,
};
use crate::like::{search_pattern, search_pattern_exec};

verus! {

pub open spec fn is_digit(c: char) -> bool {
    '0' <= c && c <= '9'
}

/// Every character in `s[from..to]` is a decimal digit.
pub open spec fn digits_between(s: Seq<char>, from: int, to: int) -> bool {
    forall|i: int| from <= i < to ==> #[trigger] is_digit(s[i])
}

/// The stamp with `f` characters of fraction (`0`, or `.` and 3, 6 or 9
/// digits): `YYYY-MM-DDTHH:MM:SS`, the fraction, then `+00:00`. A year past
/// 9999 is written as `+` and its digits.
pub open spec fn has_stamp_shape(s: Seq<char>, f: int) -> bool {
    let n = s.len() as int;
    let z = n - 6;
    let t = z - f - 9;
    &&& f == 0 || f == 4 || f == 7 || f == 10
    &&& t >= 10
    &&& s.subrange(z, n) == "+00:00"@
    &&& (f > 0 ==> s[z - f] == '.' && digits_between(s, z - f + 1, z))
    &&& s[t] == 'T' && digits_between(s, t + 1, t + 3) && s[t + 3] == ':'
    &&& digits_between(s, t + 4, t + 6) && s[t + 6] == ':' && digits_between(s, t + 7, t + 9)
    &&& s[t - 3] == '-' && digits_between(s, t - 2, t) && s[t - 6] == '-'
    &&& digits_between(s, t - 5, t - 3)
    &&& ((t == 10 && digits_between(s, 0, 4)) || (t > 11 && s[0] == '+' && digits_between(
        s,
        1,
        t - 6,
    )))
}

/// An RFC 3339 timestamp in UTC, as chrono's `to_rfc3339` writes one.
pub open spec fn is_utc_stamp(s: Seq<char>) -> bool {
    exists|f: int| #[trigger] has_stamp_shape(s, f)
}

/// The current time: `chrono::Utc::now().to_rfc3339()`. Stated: the text is
/// an RFC 3339 stamp in UTC (`YYYY-MM-DDTHH:MM:SS`, then nothing or `.` with
/// 3, 6 or 9 digits, then `+00:00`). Which instant it names is left open: it
/// depends on the clock.
#[verifier::external_body]
fn now() -> (r: String)
    ensures
        is_utc_stamp(r@),
{
    chrono::Utc::now().to_rfc3339()
}

pub open spec fn is_lower_hex(c: char) -> bool {
    ('0' <= c && c <= '9') || ('a' <= c && c <= 'f')
}

/// A random (version 4) UUID in hyphenated lower-case form: 36 characters,
/// hyphens at 8, 13, 18 and 23, lower-case hex digits elsewhere, the version
/// digit `4` at 14 and the variant digit `8`, `9`, `a` or `b` at 19.
pub open spec fn is_uuid_v4_text(s: Seq<char>) -> bool {
    &&& s.len() == 36
    &&& s[8] == '-' && s[13] == '-' && s[18] == '-' && s[23] == '-'
    &&& forall|i: int|
        0 <= i < 36 && i != 8 && i != 13 && i != 18 && i != 23 ==> #[trigger] is_lower_hex(s[i])
    &&& s[14] == '4'
    &&& s[19] == '8' || s[19] == '9' || s[19] == 'a' || s[19] == 'b'
}

/// A fresh id: `uuid::Uuid::new_v4().to_string()`. Stated: the text has the
/// shape of a random UUID (`is_uuid_v4_text`). Which id comes out is left
/// open: it is random.
#[verifier::external_body]
fn new_id() -> (r: String)
    ensures
        is_uuid_v4_text(r@),
{
    uuid::Uuid::new_v4().to_string()
}

/// The text of a failed statement.
pub open spec fn failed_with<T>(r: Result<T, String>, e: DbError) -> bool {
    match r {
        Ok(_) => false,
        Err(s) => s@ == error_message(e),
    }
}

// ---------- Bundles ----------

/// The bundle that `create_bundle` inserts.
pub open spec fn new_bundle(id: String, ts: String, name: String, color: Option<String>) -> Bundle {
    Bundle { id: id, name: name, color: color, archived: false, created_at: ts, updated_at: ts }
}

/// What `create_bundle` does with a given id and time: the bundle goes in
/// unless its id is taken.
pub open spec fn is_bundle_created(before: DbModel, after: DbModel, id: String, ts: String, name: String, color: Option<String>, r: Result<Bundle, String>) -> bool {
    match spec_insert_bundle(before, new_bundle(id, ts, name, color)) {
        Ok(m) => r == Ok::<Bundle, String>(new_bundle(id, ts, name, color)) && after == m,
        Err(e) => failed_with(r, e) && after == before,
    }
}

/// Inserts a new, unarchived bundle with the given id, created and updated at
/// `ts`, and returns it.
pub fn create_bundle_with(db: &mut Db, id: String, ts: String, name: String, color: Option<String>) -> (r: Result<Bundle, String>)
    requires
        old(db).wf(),
    ensures
        final(db).wf(),
        is_bundle_created(old(db)@, final(db)@, id, ts, name, color, r),
{
    let b = Bundle {
        id: id,
        name: name,
        color: color,
        archived: false,
        created_at: ts.clone(),
        updated_at: ts,
    };
    match db.insert_bundle(b.copy()) {
        Ok(()) => Ok(b),
        Err(e) => Err(e.message()),
    }
}

/// Creates a bundle with a fresh id, stamped with the current time.
pub fn create_bundle(db: &mut Db, name: String, color: Option<String>) -> (r: Result<Bundle, String>)
    requires
        old(db).wf(),
    ensures
        final(db).wf(),
        exists|id: String, ts: String|
            is_uuid_v4_text(id@) && is_utc_stamp(ts@) && #[trigger] is_bundle_created(
                old(db)@,
                final(db)@,
                id,
                ts,
                name,
                color,
                r,
            ),
{
    let id = new_id();
    let ts = now();
    create_bundle_with(db, id, ts, name, color)
}

/// Lists the bundles by name, the archived ones too when asked for.
pub fn list_bundles(db: &Db, include_archived: bool) -> (r: Result<Vec<Bundle>, String>)
    ensures
        match r {
            Ok(v) => is_bundle_listing(db@, include_archived, v@),
            Err(_) => false,
        },
{
    Ok(db.query_bundles(include_archived))
}

/// Renames the bundle `id` and stamps it with `ts`; no bundle, no change.
pub fn rename_bundle_at(db: &mut Db, id: String, name: String, ts: String) -> (r: Result<(), String>)
    requires
        old(db).wf(),
    ensures
        final(db).wf(),
        r is Ok,
        final(db)@ == spec_rename_bundle(old(db)@, id@, name, ts),
{
    db.rename_bundle(&id, &name, &ts);
    Ok(())
}

/// Renames the bundle `id`, stamped with the current time.
pub fn rename_bundle(db: &mut Db, id: String, name: String) -> (r: Result<(), String>)
    requires
        old(db).wf(),
    ensures
        final(db).wf(),
        r is Ok,
        exists|ts: String| is_utc_stamp(ts@) && final(db)@ == #[trigger] spec_rename_bundle(old(db)@, id@, name, ts),
{
    let ts = now();
    rename_bundle_at(db, id, name, ts)
}

/// Archives or unarchives the bundle `id` and stamps it with `ts`.
pub fn set_bundle_archived_at(db: &mut Db, id: String, archived: bool, ts: String) -> (r: Result<(), String>)
    requires
        old(db).wf(),
    ensures
        final(db).wf(),
        r is Ok,
        final(db)@ == spec_set_bundle_archived(old(db)@, id@, archived, ts),
{
    db.set_bundle_archived(&id, archived, &ts);
    Ok(())
}

/// Archives or unarchives the bundle `id`, stamped with the current time.
pub fn set_bundle_archived(db: &mut Db, id: String, archived: bool) -> (r: Result<(), String>)
    requires
        old(db).wf(),
    ensures
        final(db).wf(),
        r is Ok,
        exists|ts: String|
            is_utc_stamp(ts@) && final(db)@ == #[trigger] spec_set_bundle_archived(old(db)@, id@, archived, ts),
{
    let ts = now();
    set_bundle_archived_at(db, id, archived, ts)
}

/// Deletes the bundle with its notes and tags.
pub fn delete_bundle(db: &mut Db, id: String) -> (r: Result<(), String>)
    requires
        old(db).wf(),
    ensures
        final(db).wf(),
        r is Ok,
        final(db)@ == spec_delete_bundle(old(db)@, id@),
{
    db.delete_bundle(&id);
    Ok(())
}

// ---------- Notes ----------

/// The row that `create_note` inserts at position `pos`.
pub open spec fn new_note_row(id: String, ts: String, payload: NewNote, pos: i64) -> NoteRow {
    NoteRow {
        id: id,
        bundle_id: payload.bundle_id,
        title: payload.title,
        content: payload.content,
        pinned: false,
        position: pos,
        created_at: ts,
        updated_at: ts,
        sync_version: Some(0),
    }
}

/// What `create_note` does with a given id and time: the note goes after
/// the last one of its bundle, unpinned, at sync version 0, without tags.
pub open spec fn is_note_created(before: DbModel, after: DbModel, id: String, ts: String, payload: NewNote, r: Result<Note, String>) -> bool {
    match spec_next_position(before, payload.bundle_id@) {
        Err(e) => failed_with(r, e) && after == before,
        Ok(pos) => match spec_insert_note(before, new_note_row(id, ts, payload, pos)) {
            Ok(m) => match r {
                Ok(n) => row_of_note(n) == new_note_row(id, ts, payload, pos) && n.tags@.len() == 0
                    && after == m,
                Err(_) => false,
            },
            Err(e) => failed_with(r, e) && after == before,
        },
    }
}

/// Creates a note with the given id, created and updated at `ts`.
pub fn create_note_with(db: &mut Db, id: String, ts: String, payload: NewNote) -> (r: Result<Note, String>)
    requires
        old(db).wf(),
    ensures
        final(db).wf(),
        is_note_created(old(db)@, final(db)@, id, ts, payload, r),
{
    let pos = match db.next_position(&payload.bundle_id) {
        Ok(p) => p,
        Err(e) => {
            return Err(e.message());
        },
    };
    let row = NoteRow {
        id: id,
        bundle_id: payload.bundle_id,
        title: payload.title,
        content: payload.content,
        pinned: false,
        position: pos,
        created_at: ts.clone(),
        updated_at: ts,
        sync_version: Some(0),
    };
    match db.insert_note(row.copy()) {
        Ok(()) => Ok(
            Note {
                id: row.id,
                bundle_id: row.bundle_id,
                title: row.title,
                content: row.content,
                pinned: false,
                position: pos,
                created_at: row.created_at,
                updated_at: row.updated_at,
                sync_version: 0,
                tags: Vec::new(),
            },
        ),
        Err(e) => Err(e.message()),
    }
}

/// Creates a note with a fresh id, stamped with the current time.
pub fn create_note(db: &mut Db, payload: NewNote) -> (r: Result<Note, String>)
    requires
        old(db).wf(),
    ensures
        final(db).wf(),
        exists|id: String, ts: String|
            is_uuid_v4_text(id@) && is_utc_stamp(ts@) && #[trigger] is_note_created(old(db)@, final(db)@, id, ts, payload, r),
{
    let id = new_id();
    let ts = now();
    create_note_with(db, id, ts, payload)
}

/// Lists the readable notes of a bundle, pinned first, then by position.
pub fn list_notes(db: &Db, bundle_id: String) -> (r: Result<Vec<Note>, String>)
    ensures
        match r {
            Ok(v) => is_note_listing(db@, bundle_id@, v@),
            Err(_) => false,
        },
{
    Ok(db.query_notes_in_bundle(&bundle_id))
}

/// A read of a note, its error as text.
pub open spec fn is_note_reply(m: DbModel, id: Seq<char>, r: Result<Note, String>) -> bool {
    match r {
        Ok(n) => is_note_read(m, id, Ok(n)),
        Err(s) => exists|e: DbError| is_note_read(m, id, Err(e)) && s@ == error_message(e),
    }
}

/// Reads one note with its tags.
pub fn get_note(db: &Db, id: String) -> (r: Result<Note, String>)
    ensures
        is_note_reply(db@, id@, r),
{
    match db.query_note(&id) {
        Ok(n) => Ok(n),
        Err(e) => Err(e.message()),
    }
}

/// The statements of an update, in the order they run: title, content,
/// pinned, position, each only when given.
pub open spec fn spec_update_note(m: DbModel, id: Seq<char>, u: NoteUpdate, ts: String) -> DbModel {
    let m1 = match u.title {
        Some(t) => spec_change_note(m, id, NoteChange::Title(t), ts),
        None => m,
    };
    let m2 = match u.content {
        Some(c) => spec_change_note(m1, id, NoteChange::Content(c), ts),
        None => m1,
    };
    let m3 = match u.pinned {
        Some(p) => spec_change_note(m2, id, NoteChange::Pinned(p), ts),
        None => m2,
    };
    match u.position {
        Some(p) => spec_change_note(m3, id, NoteChange::Position(p), ts),
        None => m3,
    }
}

/// Applies the given fields of an update to the note `id`, stamped with
/// `ts`, then reads the note back.
pub fn update_note_at(db: &mut Db, id: String, update: NoteUpdate, ts: String) -> (r: Result<Note, String>)
    requires
        old(db).wf(),
    ensures
        final(db).wf(),
        final(db)@ == spec_update_note(old(db)@, id@, update, ts),
        is_note_reply(final(db)@, id@, r),
{
    match &update.title {
        Some(t) => db.change_note(&id, &NoteChange::Title(t.clone()), &ts),
        None => {},
    }
    match &update.content {
        Some(c) => db.change_note(&id, &NoteChange::Content(c.clone()), &ts),
        None => {},
    }
    match update.pinned {
        Some(p) => db.change_note(&id, &NoteChange::Pinned(p), &ts),
        None => {},
    }
    match update.position {
        Some(p) => db.change_note(&id, &NoteChange::Position(p), &ts),
        None => {},
    }
    get_note(db, id)
}

/// Updates a note, stamped with the current time, and reads it back.
pub fn update_note(db: &mut Db, id: String, update: NoteUpdate) -> (r: Result<Note, String>)
    requires
        old(db).wf(),
    ensures
        final(db).wf(),
        exists|ts: String| is_utc_stamp(ts@) && final(db)@ == #[trigger] spec_update_note(old(db)@, id@, update, ts),
        is_note_reply(final(db)@, id@, r),
{
    let ts = now();
    update_note_at(db, id, update, ts)
}

/// Deletes a note and its tag assignments.
pub fn delete_note(db: &mut Db, id: String) -> (r: Result<(), String>)
    requires
        old(db).wf(),
    ensures
        final(db).wf(),
        r is Ok,
        final(db)@ == spec_delete_note(old(db)@, id@),
{
    db.delete_note(&id);
    Ok(())
}

/// Finds the notes whose title or content matches `%query%` under `LIKE`,
/// latest first, at most a hundred.
pub fn search_notes(db: &Db, query: String) -> (r: Result<Vec<Note>, String>)
    ensures
        match r {
            Ok(v) => is_search_result(db@, search_pattern(query@), v@),
            Err(_) => false,
        },
{
    let pattern = search_pattern_exec(query.as_str());
    Ok(db.query_notes_like(&pattern))
}

// ---------- Tags ----------

/// What `create_tag` does with a given id: the tag goes in unless its id is
/// taken or its bundle does not exist.
pub open spec fn is_tag_created(before: DbModel, after: DbModel, id: String, bundle_id: String, name: String, color: Option<String>, r: Result<Tag, String>) -> bool {
    let t = Tag { id: id, bundle_id: bundle_id, name: name, color: color };
    match spec_insert_tag(before, t) {
        Ok(m) => r == Ok::<Tag, String>(t) && after == m,
        Err(e) => failed_with(r, e) && after == before,
    }
}

/// Inserts a tag with the given id into a bundle, and returns it.
pub fn create_tag_with(db: &mut Db, id: String, bundle_id: String, name: String, color: Option<String>) -> (r: Result<Tag, String>)
    requires
        old(db).wf(),
    ensures
        final(db).wf(),
        is_tag_created(old(db)@, final(db)@, id, bundle_id, name, color, r),
{
    let t = Tag { id: id, bundle_id: bundle_id, name: name, color: color };
    match db.insert_tag(t.copy()) {
        Ok(()) => Ok(t),
        Err(e) => Err(e.message()),
    }
}

/// Creates a tag with a fresh id in a bundle.
pub fn create_tag(db: &mut Db, bundle_id: String, name: String, color: Option<String>) -> (r: Result<Tag, String>)
    requires
        old(db).wf(),
    ensures
        final(db).wf(),
        exists|id: String|
            is_uuid_v4_text(id@) && #[trigger] is_tag_created(old(db)@, final(db)@, id, bundle_id, name, color, r),
{
    let id = new_id();
    create_tag_with(db, id, bundle_id, name, color)
}

/// Lists the tags of a bundle by name.
pub fn list_tags(db: &Db, bundle_id: String) -> (r: Result<Vec<Tag>, String>)
    ensures
        match r {
            Ok(v) => is_tag_listing_of_bundle(db@, bundle_id@, v@),
            Err(_) => false,
        },
{
    Ok(db.query_tags_in_bundle(&bundle_id))
}

/// Deletes a tag and its assignments.
pub fn delete_tag(db: &mut Db, id: String) -> (r: Result<(), String>)
    requires
        old(db).wf(),
    ensures
        final(db).wf(),
        r is Ok,
        final(db)@ == spec_delete_tag(old(db)@, id@),
{
    db.delete_tag(&id);
    Ok(())
}

/// Assigns a tag to a note of its own bundle; a tag of another bundle is
/// refused, and assigning a tag again changes nothing.
pub fn assign_tag(db: &mut Db, note_id: String, tag_id: String) -> (r: Result<(), String>)
    requires
        old(db).wf(),
    ensures
        final(db).wf(),
        match spec_assign(old(db)@, note_id, tag_id) {
            Ok(m) => r is Ok && final(db)@ == m,
            Err(e) => failed_with(r, e) && final(db)@ == old(db)@,
        },
{
    match db.assign(note_id, tag_id) {
        Ok(()) => Ok(()),
        Err(e) => Err(e.message()),
    }
}

/// Takes a tag off a note.
pub fn remove_tag(db: &mut Db, note_id: String, tag_id: String) -> (r: Result<(), String>)
    requires
        old(db).wf(),
    ensures
        final(db).wf(),
        r is Ok,
        final(db)@ == spec_unassign(old(db)@, note_id@, tag_id@),
{
    db.unassign(&note_id, &tag_id);
    Ok(())
}

} // verus!
