use vstd::prelude::*;
use crate::models::{Bundle, Tag, copy_opt_string};
use crate::table::{keys_unique, has_key, lemma_filter_prefix_step, lemma_filter_whole, lemma_filter_rows, lemma_filter_keys_unique, lemma_filter_keeps_key, lemma_same_keys, lemma_push_key};

verus! {

broadcast use vstd::seq_lib::group_to_multiset_ensures;

/// A row of the `notes` table. Unlike a [`crate::models::Note`], it holds no tags, and its
/// `sync_version` is `None` once the stored value has stopped being an
/// integer: SQLite turns an integer overflow in `sync_version + 1` into a
/// REAL, and such a row can no longer be read as a note.
#[derive(Debug, Clone, PartialEq, Eq)]
pub struct NoteRow {
    pub id: String,
    pub bundle_id: String,
    pub title: String,
    pub content: String,
    pub pinned: bool,
    pub position: i64,
    pub created_at: String,
    pub updated_at: String,
    pub sync_version: Option<i64>,
}

/// A row of the `note_tags` table: the tag `tag_id` is assigned to the note
/// `note_id`.
#[derive(Debug, Clone, PartialEq, Eq)]
pub struct NoteTag {
    pub note_id: String,
    pub tag_id: String,
}

/// Why a statement failed; `message` gives the text that SQLite (through
/// rusqlite) reports for it.
#[derive(Debug, Clone, Copy, PartialEq, Eq)]
pub enum DbError {
    /// A bundle with this id exists already.
    DuplicateBundleId,
    /// A note with this id exists already.
    DuplicateNoteId,
    /// A tag with this id exists already.
    DuplicateTagId,
    /// A referenced bundle, note or tag does not exist.
    ForeignKey,
    /// The query found no row.
    NoRows,
    /// The next position in a bundle would pass `i64::MAX`.
    NextPositionNotInteger,
    /// The note's `sync_version` is no longer an integer.
    SyncVersionNotInteger,
    /// The tag belongs to another bundle than the note: tags are local to
    /// their bundle.
    TagOfAnotherBundle,
}

/// The text that rusqlite gives for the error.
pub open spec fn error_message(e: DbError) -> Seq<char> {
    match e {
        DbError::DuplicateBundleId => "UNIQUE constraint failed: bundles.id"@,
        DbError::DuplicateNoteId => "UNIQUE constraint failed: notes.id"@,
        DbError::DuplicateTagId => "UNIQUE constraint failed: tags.id"@,
        DbError::ForeignKey => "FOREIGN KEY constraint failed"@,
        DbError::NoRows => "Query returned no rows"@,
        DbError::NextPositionNotInteger => "Invalid column type Real at index: 0, name: COALESCE(MAX(position) + 1, 0)"@,
        DbError::SyncVersionNotInteger => "Invalid column type Real at index: 8, name: sync_version"@,
        DbError::TagOfAnotherBundle => "the tag belongs to another bundle than the note"@,
    }
}

impl DbError {
    /// The text of the error.
    pub fn message(&self) -> (r: String)
        ensures
            r@ == error_message(*self),
    {
        match self {
            DbError::DuplicateBundleId => String::from_str("UNIQUE constraint failed: bundles.id"),
            DbError::DuplicateNoteId => String::from_str("UNIQUE constraint failed: notes.id"),
            DbError::DuplicateTagId => String::from_str("UNIQUE constraint failed: tags.id"),
            DbError::ForeignKey => String::from_str("FOREIGN KEY constraint failed"),
            DbError::NoRows => String::from_str("Query returned no rows"),
            DbError::NextPositionNotInteger => String::from_str(
                "Invalid column type Real at index: 0, name: COALESCE(MAX(position) + 1, 0)",
            ),
            DbError::SyncVersionNotInteger => String::from_str(
                "Invalid column type Real at index: 8, name: sync_version",
            ),
            DbError::TagOfAnotherBundle => String::from_str(
                "the tag belongs to another bundle than the note",
            ),
        }
    }
}

/// The contents of the four tables, rows in the order they were inserted.
#[verifier::ext_equal]
pub struct DbModel {
    pub bundles: Seq<Bundle>,
    pub notes: Seq<NoteRow>,
    pub tags: Seq<Tag>,
    pub note_tags: Seq<NoteTag>,
}

/// The primary key of `bundles`.
pub open spec fn bundle_key() -> spec_fn(Bundle) -> Seq<char> {
    |b: Bundle| b.id@
}

/// The primary key of `notes`.
pub open spec fn note_key() -> spec_fn(NoteRow) -> Seq<char> {
    |n: NoteRow| n.id@
}

/// The primary key of `tags`.
pub open spec fn tag_key() -> spec_fn(Tag) -> Seq<char> {
    |t: Tag| t.id@
}

/// The primary key of `note_tags`: the pair of ids.
pub open spec fn pair_key() -> spec_fn(NoteTag) -> (Seq<char>, Seq<char>) {
    |p: NoteTag| (p.note_id@, p.tag_id@)
}

/// A bundle with this id exists.
pub open spec fn has_bundle(bs: Seq<Bundle>, id: Seq<char>) -> bool {
    has_key(bs, bundle_key(), id)
}

/// A note with this id exists.
pub open spec fn has_note(ns: Seq<NoteRow>, id: Seq<char>) -> bool {
    has_key(ns, note_key(), id)
}

/// A tag with this id exists.
pub open spec fn has_tag(ts: Seq<Tag>, id: Seq<char>) -> bool {
    has_key(ts, tag_key(), id)
}

/// The tag is assigned to the note.
pub open spec fn has_pair(nts: Seq<NoteTag>, note_id: Seq<char>, tag_id: Seq<char>) -> bool {
    has_key(nts, pair_key(), (note_id, tag_id))
}

/// The note and the tag of every assignment belong to one bundle: tags are
/// local to their bundle.
pub open spec fn pairs_within_bundles(m: DbModel) -> bool {
    forall|i: int, k: int, j: int|
        0 <= i < m.note_tags.len() && 0 <= k < m.notes.len() && 0 <= j < m.tags.len() && (
        #[trigger] m.notes[k]).id@ == (#[trigger] m.note_tags[i]).note_id@ && (
        #[trigger] m.tags[j]).id@ == m.note_tags[i].tag_id@ ==> m.notes[k].bundle_id@
            == m.tags[j].bundle_id@
}

/// Some note with this id and some tag with that id belong to one bundle.
pub open spec fn in_one_bundle(m: DbModel, note_id: Seq<char>, tag_id: Seq<char>) -> bool {
    exists|k: int, j: int|
        0 <= k < m.notes.len() && 0 <= j < m.tags.len() && (#[trigger] m.notes[k]).id@ == note_id
            && (#[trigger] m.tags[j]).id@ == tag_id && m.notes[k].bundle_id@ == m.tags[j].bundle_id@
}

/// The integrity of the tables: primary keys are unique, every reference
/// names an existing row, and every assignment stays within one bundle.
pub open spec fn model_wf(m: DbModel) -> bool {
    &&& keys_unique(m.bundles, bundle_key())
    &&& keys_unique(m.notes, note_key())
    &&& keys_unique(m.tags, tag_key())
    &&& keys_unique(m.note_tags, pair_key())
    &&& forall|i: int|
        0 <= i < m.notes.len() ==> has_bundle(m.bundles, #[trigger] m.notes[i].bundle_id@)
    &&& forall|i: int|
        0 <= i < m.tags.len() ==> has_bundle(m.bundles, #[trigger] m.tags[i].bundle_id@)
    &&& forall|i: int|
        0 <= i < m.note_tags.len() ==> has_note(m.notes, #[trigger] m.note_tags[i].note_id@)
            && has_tag(m.tags, m.note_tags[i].tag_id@)
    &&& pairs_within_bundles(m)
}

impl Bundle {
    /// A copy of the bundle, field for field.
    pub fn copy(&self) -> (r: Bundle)
        ensures
            r == *self,
    {
        Bundle {
            id: self.id.clone(),
            name: self.name.clone(),
            color: copy_opt_string(&self.color),
            archived: self.archived,
            created_at: self.created_at.clone(),
            updated_at: self.updated_at.clone(),
        }
    }
}

impl NoteRow {
    /// A copy of the row, field for field.
    pub fn copy(&self) -> (r: NoteRow)
        ensures
            r == *self,
    {
        NoteRow {
            id: self.id.clone(),
            bundle_id: self.bundle_id.clone(),
            title: self.title.clone(),
            content: self.content.clone(),
            pinned: self.pinned,
            position: self.position,
            created_at: self.created_at.clone(),
            updated_at: self.updated_at.clone(),
            sync_version: self.sync_version,
        }
    }
}

impl NoteTag {
    /// A copy of the row, field for field.
    pub fn copy(&self) -> (r: NoteTag)
        ensures
            r == *self,
    {
        NoteTag { note_id: self.note_id.clone(), tag_id: self.tag_id.clone() }
    }
}

/// The note store: the `bundles`, `notes`, `tags` and `note_tags` tables.
pub struct Db {
    bundles: Vec<Bundle>,
    notes: Vec<NoteRow>,
    tags: Vec<Tag>,
    note_tags: Vec<NoteTag>,
}

impl View for Db {
    type V = DbModel;

    closed spec fn view(&self) -> DbModel {
        DbModel {
            bundles: self.bundles@,
            notes: self.notes@,
            tags: self.tags@,
            note_tags: self.note_tags@,
        }
    }
}

impl Db {
    /// The tables keep the schema's integrity.
    pub open spec fn wf(&self) -> bool {
        model_wf(self@)
    }

    /// An empty store.
    pub fn new() -> (r: Db)
        ensures
            r.wf(),
            r@.bundles.len() == 0,
            r@.notes.len() == 0,
            r@.tags.len() == 0,
            r@.note_tags.len() == 0,
    {
        Db { bundles: Vec::new(), notes: Vec::new(), tags: Vec::new(), note_tags: Vec::new() }
    }

    /// The rows of `bundles`.
    pub fn bundle_rows(&self) -> (r: &Vec<Bundle>)
        ensures
            r@ == self@.bundles,
    {
        &self.bundles
    }

    /// The rows of `notes`.
    pub fn note_rows(&self) -> (r: &Vec<NoteRow>)
        ensures
            r@ == self@.notes,
    {
        &self.notes
    }

    /// The rows of `tags`.
    pub fn tag_rows(&self) -> (r: &Vec<Tag>)
        ensures
            r@ == self@.tags,
    {
        &self.tags
    }

    /// The rows of `note_tags`.
    pub fn note_tag_rows(&self) -> (r: &Vec<NoteTag>)
        ensures
            r@ == self@.note_tags,
    {
        &self.note_tags
    }
}


pub(crate) fn index_of_bundle(bs: &Vec<Bundle>, id: &String) -> (r: Option<usize>)
    ensures
        match r {
            Some(k) => k < bs@.len() && bs@[k as int].id@ == id@,
            None => !has_bundle(bs@, id@),
        },
{
    let mut k: usize = 0;
    while k < bs.len()
        invariant
            k <= bs@.len(),
            forall|j: int| 0 <= j < k ==> #[trigger] bs@[j].id@ != id@,
        decreases bs@.len() - k,
    {
        if bs[k].id == *id {
            return Some(k);
        }
        k = k + 1;
    }
    None
}

pub(crate) fn index_of_note(ns: &Vec<NoteRow>, id: &String) -> (r: Option<usize>)
    ensures
        match r {
            Some(k) => k < ns@.len() && ns@[k as int].id@ == id@,
            None => !has_note(ns@, id@),
        },
{
    let mut k: usize = 0;
    while k < ns.len()
        invariant
            k <= ns@.len(),
            forall|j: int| 0 <= j < k ==> #[trigger] ns@[j].id@ != id@,
        decreases ns@.len() - k,
    {
        if ns[k].id == *id {
            return Some(k);
        }
        k = k + 1;
    }
    None
}

pub(crate) fn index_of_tag(ts: &Vec<Tag>, id: &String) -> (r: Option<usize>)
    ensures
        match r {
            Some(k) => k < ts@.len() && ts@[k as int].id@ == id@,
            None => !has_tag(ts@, id@),
        },
{
    let mut k: usize = 0;
    while k < ts.len()
        invariant
            k <= ts@.len(),
            forall|j: int| 0 <= j < k ==> #[trigger] ts@[j].id@ != id@,
        decreases ts@.len() - k,
    {
        if ts[k].id == *id {
            return Some(k);
        }
        k = k + 1;
    }
    None
}

pub(crate) fn index_of_pair(nts: &Vec<NoteTag>, note_id: &String, tag_id: &String) -> (r: Option<usize>)
    ensures
        match r {
            Some(k) => k < nts@.len() && nts@[k as int].note_id@ == note_id@
                && nts@[k as int].tag_id@ == tag_id@,
            None => !has_pair(nts@, note_id@, tag_id@),
        },
{
    let mut k: usize = 0;
    while k < nts.len()
        invariant
            k <= nts@.len(),
            forall|j: int|
                0 <= j < k ==> (#[trigger] nts@[j].note_id@, nts@[j].tag_id@) != (
                    note_id@,
                    tag_id@,
                ),
        decreases nts@.len() - k,
    {
        if nts[k].note_id == *note_id && nts[k].tag_id == *tag_id {
            return Some(k);
        }
        k = k + 1;
    }
    None
}


// ---------- What each statement does to the tables ----------

/// `INSERT INTO bundles ...`
pub open spec fn spec_insert_bundle(m: DbModel, b: Bundle) -> Result<DbModel, DbError> {
    if has_bundle(m.bundles, b.id@) {
        Err(DbError::DuplicateBundleId)
    } else {
        Ok(DbModel { bundles: m.bundles.push(b), ..m })
    }
}

/// The bundle after `UPDATE bundles SET name = ?, updated_at = ? WHERE id = ?`.
pub open spec fn renamed(id: Seq<char>, name: String, ts: String) -> spec_fn(Bundle) -> Bundle {
    |b: Bundle|
        if b.id@ == id {
            Bundle { name: name, updated_at: ts, ..b }
        } else {
            b
        }
}

/// `UPDATE bundles SET name = ?, updated_at = ? WHERE id = ?`.
pub open spec fn spec_rename_bundle(m: DbModel, id: Seq<char>, name: String, ts: String) -> DbModel {
    DbModel { bundles: m.bundles.map_values(renamed(id, name, ts)), ..m }
}

/// The bundle after `UPDATE bundles SET archived = ?, updated_at = ? WHERE id = ?`.
pub open spec fn archived_as(id: Seq<char>, archived: bool, ts: String) -> spec_fn(Bundle) -> Bundle {
    |b: Bundle|
        if b.id@ == id {
            Bundle { archived: archived, updated_at: ts, ..b }
        } else {
            b
        }
}

/// `UPDATE bundles SET archived = ?, updated_at = ? WHERE id = ?`.
pub open spec fn spec_set_bundle_archived(m: DbModel, id: Seq<char>, archived: bool, ts: String) -> DbModel {
    DbModel { bundles: m.bundles.map_values(archived_as(id, archived, ts)), ..m }
}

/// The bundle is not the one deleted.
pub open spec fn bundle_other_than(id: Seq<char>) -> spec_fn(Bundle) -> bool {
    |b: Bundle| b.id@ != id
}

/// The note is not in the bundle deleted.
pub open spec fn note_outside(bundle_id: Seq<char>) -> spec_fn(NoteRow) -> bool {
    |n: NoteRow| n.bundle_id@ != bundle_id
}

/// The tag is not in the bundle deleted.
pub open spec fn tag_outside(bundle_id: Seq<char>) -> spec_fn(Tag) -> bool {
    |t: Tag| t.bundle_id@ != bundle_id
}

/// A `note_tags` row survives a delete when its note and its tag both do
/// (`ON DELETE CASCADE`).
pub open spec fn pair_alive(notes: Seq<NoteRow>, tags: Seq<Tag>) -> spec_fn(NoteTag) -> bool {
    |p: NoteTag| has_note(notes, p.note_id@) && has_tag(tags, p.tag_id@)
}

/// `DELETE FROM bundles WHERE id = ?`, with the cascades of the schema: the
/// bundle's notes and tags go too, and so do their `note_tags` rows.
pub open spec fn spec_delete_bundle(m: DbModel, id: Seq<char>) -> DbModel {
    let notes = m.notes.filter(note_outside(id));
    let tags = m.tags.filter(tag_outside(id));
    DbModel {
        bundles: m.bundles.filter(bundle_other_than(id)),
        notes: notes,
        tags: tags,
        note_tags: m.note_tags.filter(pair_alive(notes, tags)),
    }
}


/// The largest position among the notes of the bundle, if it has any.
pub open spec fn max_position(ns: Seq<NoteRow>, bundle_id: Seq<char>) -> Option<i64>
    decreases ns.len(),
{
    if ns.len() == 0 {
        None
    } else {
        let rest = max_position(ns.drop_last(), bundle_id);
        let n = ns.last();
        if n.bundle_id@ == bundle_id {
            match rest {
                None => Some(n.position),
                Some(p) => Some(
                    if p < n.position {
                        n.position
                    } else {
                        p
                    },
                ),
            }
        } else {
            rest
        }
    }
}

/// `SELECT COALESCE(MAX(position) + 1, 0) FROM notes WHERE bundle_id = ?`:
/// 0 for an empty bundle, else one past the largest position; past
/// `i64::MAX` SQLite yields a REAL, which does not read as an integer.
pub open spec fn spec_next_position(m: DbModel, bundle_id: Seq<char>) -> Result<i64, DbError> {
    match max_position(m.notes, bundle_id) {
        None => Ok(0),
        Some(p) => if p == i64::MAX {
            Err(DbError::NextPositionNotInteger)
        } else {
            Ok((p + 1) as i64)
        },
    }
}

/// `INSERT INTO notes ...`: the id must be new, and the bundle must exist.
pub open spec fn spec_insert_note(m: DbModel, n: NoteRow) -> Result<DbModel, DbError> {
    if has_note(m.notes, n.id@) {
        Err(DbError::DuplicateNoteId)
    } else if !has_bundle(m.bundles, n.bundle_id@) {
        Err(DbError::ForeignKey)
    } else {
        Ok(DbModel { notes: m.notes.push(n), ..m })
    }
}

/// One `UPDATE notes SET ... WHERE id = ?` of the four that update a note.
pub enum NoteChange {
    /// `SET title = ?, updated_at = ?, sync_version = sync_version + 1`
    Title(String),
    /// `SET content = ?, updated_at = ?, sync_version = sync_version + 1`
    Content(String),
    /// `SET pinned = ?, updated_at = ?`
    Pinned(bool),
    /// `SET position = ?, updated_at = ?`
    Position(i64),
}

/// `sync_version + 1`: an integer stays one while it fits in an `i64`.
pub open spec fn bumped(v: Option<i64>) -> Option<i64> {
    match v {
        Some(x) => if x < i64::MAX {
            Some((x + 1) as i64)
        } else {
            None
        },
        None => None,
    }
}

/// A note row after a change, stamped with `ts`.
pub open spec fn changed_row(n: NoteRow, c: NoteChange, ts: String) -> NoteRow {
    match c {
        NoteChange::Title(t) => NoteRow {
            title: t,
            updated_at: ts,
            sync_version: bumped(n.sync_version),
            ..n
        },
        NoteChange::Content(t) => NoteRow {
            content: t,
            updated_at: ts,
            sync_version: bumped(n.sync_version),
            ..n
        },
        NoteChange::Pinned(p) => NoteRow { pinned: p, updated_at: ts, ..n },
        NoteChange::Position(p) => NoteRow { position: p, updated_at: ts, ..n },
    }
}

/// The note row after the change, when its id matches.
pub open spec fn changed(id: Seq<char>, c: NoteChange, ts: String) -> spec_fn(NoteRow) -> NoteRow {
    |n: NoteRow|
        if n.id@ == id {
            changed_row(n, c, ts)
        } else {
            n
        }
}

/// `UPDATE notes SET ... WHERE id = ?` for one change.
pub open spec fn spec_change_note(m: DbModel, id: Seq<char>, c: NoteChange, ts: String) -> DbModel {
    DbModel { notes: m.notes.map_values(changed(id, c, ts)), ..m }
}

/// The note is not the one deleted.
pub open spec fn note_other_than(id: Seq<char>) -> spec_fn(NoteRow) -> bool {
    |n: NoteRow| n.id@ != id
}

/// `DELETE FROM notes WHERE id = ?`, cascading to its tag assignments.
pub open spec fn spec_delete_note(m: DbModel, id: Seq<char>) -> DbModel {
    let notes = m.notes.filter(note_other_than(id));
    DbModel { notes: notes, note_tags: m.note_tags.filter(pair_alive(notes, m.tags)), ..m }
}

/// `INSERT INTO tags ...`: the id must be new, and the bundle must exist.
pub open spec fn spec_insert_tag(m: DbModel, t: Tag) -> Result<DbModel, DbError> {
    if has_tag(m.tags, t.id@) {
        Err(DbError::DuplicateTagId)
    } else if !has_bundle(m.bundles, t.bundle_id@) {
        Err(DbError::ForeignKey)
    } else {
        Ok(DbModel { tags: m.tags.push(t), ..m })
    }
}

/// The tag is not the one deleted.
pub open spec fn tag_other_than(id: Seq<char>) -> spec_fn(Tag) -> bool {
    |t: Tag| t.id@ != id
}

/// `DELETE FROM tags WHERE id = ?`, cascading to its assignments.
pub open spec fn spec_delete_tag(m: DbModel, id: Seq<char>) -> DbModel {
    let tags = m.tags.filter(tag_other_than(id));
    DbModel { tags: tags, note_tags: m.note_tags.filter(pair_alive(m.notes, tags)), ..m }
}

/// `INSERT OR IGNORE INTO note_tags ...`: the note and the tag must exist,
/// and belong to one bundle; an assignment that exists already is left as it
/// is.
pub open spec fn spec_assign(m: DbModel, note_id: String, tag_id: String) -> Result<DbModel, DbError> {
    if !has_note(m.notes, note_id@) || !has_tag(m.tags, tag_id@) {
        Err(DbError::ForeignKey)
    } else if !in_one_bundle(m, note_id@, tag_id@) {
        Err(DbError::TagOfAnotherBundle)
    } else if has_pair(m.note_tags, note_id@, tag_id@) {
        Ok(m)
    } else {
        Ok(DbModel { note_tags: m.note_tags.push(NoteTag { note_id: note_id, tag_id: tag_id }), ..m })
    }
}

/// The assignment is not the one removed.
pub open spec fn pair_other_than(note_id: Seq<char>, tag_id: Seq<char>) -> spec_fn(NoteTag) -> bool {
    |p: NoteTag| (p.note_id@, p.tag_id@) != (note_id, tag_id)
}

/// `DELETE FROM note_tags WHERE note_id = ? AND tag_id = ?`.
pub open spec fn spec_unassign(m: DbModel, note_id: Seq<char>, tag_id: Seq<char>) -> DbModel {
    DbModel { note_tags: m.note_tags.filter(pair_other_than(note_id, tag_id)), ..m }
}

// ---------- Each statement keeps the integrity of the tables ----------

/// With unique ids, the note and the tag found by id are the only ones with
/// those ids, so whether the two share a bundle is decided by them.
pub proof fn lemma_one_note_one_tag(m: DbModel, note_id: Seq<char>, tag_id: Seq<char>, a: int, b: int)
    requires
        model_wf(m),
        0 <= a < m.notes.len(),
        0 <= b < m.tags.len(),
        m.notes[a].id@ == note_id,
        m.tags[b].id@ == tag_id,
    ensures
        in_one_bundle(m, note_id, tag_id) <==> m.notes[a].bundle_id@ == m.tags[b].bundle_id@,
{
    if in_one_bundle(m, note_id, tag_id) {
        let (k, j) = choose|k: int, j: int|
            0 <= k < m.notes.len() && 0 <= j < m.tags.len() && (#[trigger] m.notes[k]).id@ == note_id
                && (#[trigger] m.tags[j]).id@ == tag_id && m.notes[k].bundle_id@ == m.tags[j].bundle_id@;
        if k < a {
            assert(note_key()(m.notes[k]) != note_key()(m.notes[a]));
        } else if a < k {
            assert(note_key()(m.notes[a]) != note_key()(m.notes[k]));
        }
        if j < b {
            assert(tag_key()(m.tags[j]) != tag_key()(m.tags[b]));
        } else if b < j {
            assert(tag_key()(m.tags[b]) != tag_key()(m.tags[j]));
        }
    }
}

/// Inserting a bundle with a new id keeps the tables' integrity.
pub proof fn lemma_insert_bundle_wf(m: DbModel, b: Bundle)
    requires
        model_wf(m),
        !has_bundle(m.bundles, b.id@),
    ensures
        model_wf(spec_insert_bundle(m, b).unwrap()),
{
    lemma_push_key(m.bundles, b, bundle_key());
}

/// Rewriting bundles without touching their ids keeps the tables' integrity.
pub proof fn lemma_rewrite_bundles_wf(m: DbModel, bs: Seq<Bundle>)
    requires
        model_wf(m),
        bs.len() == m.bundles.len(),
        forall|i: int| 0 <= i < bs.len() ==> (#[trigger] bs[i]).id@ == m.bundles[i].id@,
    ensures
        model_wf(DbModel { bundles: bs, ..m }),
{
    lemma_same_keys(m.bundles, bs, bundle_key());
}

/// Deleting a bundle, with its cascades, keeps the tables' integrity.
pub proof fn lemma_delete_bundle_wf(m: DbModel, id: Seq<char>)
    requires
        model_wf(m),
    ensures
        model_wf(spec_delete_bundle(m, id)),
{
    let r = spec_delete_bundle(m, id);
    lemma_filter_keys_unique(m.bundles, bundle_other_than(id), bundle_key());
    lemma_filter_keys_unique(m.notes, note_outside(id), note_key());
    lemma_filter_keys_unique(m.tags, tag_outside(id), tag_key());
    lemma_filter_keys_unique(m.note_tags, pair_alive(r.notes, r.tags), pair_key());
    lemma_filter_rows(m.notes, note_outside(id));
    lemma_filter_rows(m.tags, tag_outside(id));
    lemma_filter_rows(m.note_tags, pair_alive(r.notes, r.tags));
    assert forall|i: int| 0 <= i < r.notes.len() implies has_bundle(
        r.bundles,
        #[trigger] r.notes[i].bundle_id@,
    ) by {
        let j = choose|j: int| 0 <= j < m.notes.len() && m.notes[j] == r.notes[i];
        assert(has_bundle(m.bundles, m.notes[j].bundle_id@));
        let k = choose|k: int|
            0 <= k < m.bundles.len() && bundle_key()(#[trigger] m.bundles[k])
                == m.notes[j].bundle_id@;
        lemma_filter_keeps_key(m.bundles, bundle_other_than(id), bundle_key(), k);
    }
    assert forall|i: int| 0 <= i < r.tags.len() implies has_bundle(
        r.bundles,
        #[trigger] r.tags[i].bundle_id@,
    ) by {
        let j = choose|j: int| 0 <= j < m.tags.len() && m.tags[j] == r.tags[i];
        assert(has_bundle(m.bundles, m.tags[j].bundle_id@));
        let k = choose|k: int|
            0 <= k < m.bundles.len() && bundle_key()(#[trigger] m.bundles[k])
                == m.tags[j].bundle_id@;
        lemma_filter_keeps_key(m.bundles, bundle_other_than(id), bundle_key(), k);
    }
    assert forall|i: int| 0 <= i < r.note_tags.len() implies has_note(
        r.notes,
        #[trigger] r.note_tags[i].note_id@,
    ) && has_tag(r.tags, r.note_tags[i].tag_id@) by {
        assert(pair_alive(r.notes, r.tags)(r.note_tags[i]));
    }
}


/// Inserting a note that the schema accepts keeps the tables' integrity.
pub proof fn lemma_insert_note_wf(m: DbModel, n: NoteRow)
    requires
        model_wf(m),
        spec_insert_note(m, n) is Ok,
    ensures
        model_wf(spec_insert_note(m, n).unwrap()),
{
    let r = spec_insert_note(m, n).unwrap();
    lemma_push_key(m.notes, n, note_key());
    assert forall|i: int| 0 <= i < r.notes.len() implies has_bundle(
        r.bundles,
        #[trigger] r.notes[i].bundle_id@,
    ) by {
        if i < m.notes.len() {
            assert(r.notes[i] == m.notes[i]);
        }
    }
    assert forall|i: int| 0 <= i < r.note_tags.len() implies has_note(
        r.notes,
        #[trigger] r.note_tags[i].note_id@,
    ) && has_tag(r.tags, r.note_tags[i].tag_id@) by {
        assert(has_note(m.notes, m.note_tags[i].note_id@));
    }
}

/// Rewriting notes without touching their ids or bundles keeps the tables' integrity.
pub proof fn lemma_rewrite_notes_wf(m: DbModel, ns: Seq<NoteRow>)
    requires
        model_wf(m),
        ns.len() == m.notes.len(),
        forall|i: int|
            0 <= i < ns.len() ==> (#[trigger] ns[i]).id@ == m.notes[i].id@ && ns[i].bundle_id@
                == m.notes[i].bundle_id@,
    ensures
        model_wf(DbModel { notes: ns, ..m }),
{
    lemma_same_keys(m.notes, ns, note_key());
    let r = DbModel { notes: ns, ..m };
    assert forall|i: int| 0 <= i < r.notes.len() implies has_bundle(
        r.bundles,
        #[trigger] r.notes[i].bundle_id@,
    ) by {
        assert(has_bundle(m.bundles, m.notes[i].bundle_id@));
    }
    assert forall|i: int| 0 <= i < r.note_tags.len() implies has_note(
        r.notes,
        #[trigger] r.note_tags[i].note_id@,
    ) && has_tag(r.tags, r.note_tags[i].tag_id@) by {
        assert(has_note(m.notes, m.note_tags[i].note_id@));
    }
}

/// Deleting a note, with its cascade, keeps the tables' integrity.
pub proof fn lemma_delete_note_wf(m: DbModel, id: Seq<char>)
    requires
        model_wf(m),
    ensures
        model_wf(spec_delete_note(m, id)),
{
    let r = spec_delete_note(m, id);
    lemma_filter_keys_unique(m.notes, note_other_than(id), note_key());
    lemma_filter_keys_unique(m.note_tags, pair_alive(r.notes, r.tags), pair_key());
    lemma_filter_rows(m.notes, note_other_than(id));
    lemma_filter_rows(m.note_tags, pair_alive(r.notes, r.tags));
    assert forall|i: int| 0 <= i < r.notes.len() implies has_bundle(
        r.bundles,
        #[trigger] r.notes[i].bundle_id@,
    ) by {
        let j = choose|j: int| 0 <= j < m.notes.len() && m.notes[j] == r.notes[i];
        assert(has_bundle(m.bundles, m.notes[j].bundle_id@));
    }
    assert forall|i: int| 0 <= i < r.note_tags.len() implies has_note(
        r.notes,
        #[trigger] r.note_tags[i].note_id@,
    ) && has_tag(r.tags, r.note_tags[i].tag_id@) by {
        assert(pair_alive(r.notes, r.tags)(r.note_tags[i]));
    }
}

/// Inserting a tag that the schema accepts keeps the tables' integrity.
pub proof fn lemma_insert_tag_wf(m: DbModel, t: Tag)
    requires
        model_wf(m),
        spec_insert_tag(m, t) is Ok,
    ensures
        model_wf(spec_insert_tag(m, t).unwrap()),
{
    let r = spec_insert_tag(m, t).unwrap();
    lemma_push_key(m.tags, t, tag_key());
    assert forall|i: int| 0 <= i < r.tags.len() implies has_bundle(
        r.bundles,
        #[trigger] r.tags[i].bundle_id@,
    ) by {
        if i < m.tags.len() {
            assert(r.tags[i] == m.tags[i]);
        }
    }
    assert forall|i: int| 0 <= i < r.note_tags.len() implies has_note(
        r.notes,
        #[trigger] r.note_tags[i].note_id@,
    ) && has_tag(r.tags, r.note_tags[i].tag_id@) by {
        assert(has_note(m.notes, m.note_tags[i].note_id@));
        assert(has_tag(m.tags, m.note_tags[i].tag_id@));
    }
}

/// Deleting a tag, with its cascade, keeps the tables' integrity.
pub proof fn lemma_delete_tag_wf(m: DbModel, id: Seq<char>)
    requires
        model_wf(m),
    ensures
        model_wf(spec_delete_tag(m, id)),
{
    let r = spec_delete_tag(m, id);
    lemma_filter_keys_unique(m.tags, tag_other_than(id), tag_key());
    lemma_filter_keys_unique(m.note_tags, pair_alive(r.notes, r.tags), pair_key());
    lemma_filter_rows(m.tags, tag_other_than(id));
    lemma_filter_rows(m.note_tags, pair_alive(r.notes, r.tags));
    assert forall|i: int| 0 <= i < r.tags.len() implies has_bundle(
        r.bundles,
        #[trigger] r.tags[i].bundle_id@,
    ) by {
        let j = choose|j: int| 0 <= j < m.tags.len() && m.tags[j] == r.tags[i];
        assert(has_bundle(m.bundles, m.tags[j].bundle_id@));
    }
    assert forall|i: int| 0 <= i < r.note_tags.len() implies has_note(
        r.notes,
        #[trigger] r.note_tags[i].note_id@,
    ) && has_tag(r.tags, r.note_tags[i].tag_id@) by {
        assert(pair_alive(r.notes, r.tags)(r.note_tags[i]));
    }
}

/// An assignment that the schema accepts keeps the tables' integrity.
pub proof fn lemma_assign_wf(m: DbModel, note_id: String, tag_id: String)
    requires
        model_wf(m),
        spec_assign(m, note_id, tag_id) is Ok,
    ensures
        model_wf(spec_assign(m, note_id, tag_id).unwrap()),
{
    if !has_pair(m.note_tags, note_id@, tag_id@) {
        let p = NoteTag { note_id: note_id, tag_id: tag_id };
        let r = spec_assign(m, note_id, tag_id).unwrap();
        lemma_push_key(m.note_tags, p, pair_key());
        assert forall|i: int| 0 <= i < r.note_tags.len() implies has_note(
            r.notes,
            #[trigger] r.note_tags[i].note_id@,
        ) && has_tag(r.tags, r.note_tags[i].tag_id@) by {
            if i < m.note_tags.len() {
                assert(r.note_tags[i] == m.note_tags[i]);
            }
        }
    }
}

/// Removing an assignment keeps the tables' integrity.
pub proof fn lemma_unassign_wf(m: DbModel, note_id: Seq<char>, tag_id: Seq<char>)
    requires
        model_wf(m),
    ensures
        model_wf(spec_unassign(m, note_id, tag_id)),
{
    let r = spec_unassign(m, note_id, tag_id);
    lemma_filter_keys_unique(m.note_tags, pair_other_than(note_id, tag_id), pair_key());
    lemma_filter_rows(m.note_tags, pair_other_than(note_id, tag_id));
    assert forall|i: int| 0 <= i < r.note_tags.len() implies has_note(
        r.notes,
        #[trigger] r.note_tags[i].note_id@,
    ) && has_tag(r.tags, r.note_tags[i].tag_id@) by {
        let j = choose|j: int| 0 <= j < m.note_tags.len() && m.note_tags[j] == r.note_tags[i];
        assert(has_note(m.notes, m.note_tags[j].note_id@));
    }
}

// ---------- Filters over one table ----------

fn bundles_other_than(bs: &Vec<Bundle>, id: &String) -> (r: Vec<Bundle>)
    ensures
        r@ == bs@.filter(bundle_other_than(id@)),
{
    let mut r: Vec<Bundle> = Vec::new();
    let mut i: usize = 0;
    while i < bs.len()
        invariant
            i <= bs@.len(),
            r@ == bs@.take(i as int).filter(bundle_other_than(id@)),
        decreases bs@.len() - i,
    {
        proof {
            lemma_filter_prefix_step(bs@, bundle_other_than(id@), i as int);
        }
        if bs[i].id != *id {
            r.push(bs[i].copy());
        }
        i = i + 1;
    }
    proof {
        lemma_filter_whole(bs@, bundle_other_than(id@));
    }
    r
}

fn notes_outside(ns: &Vec<NoteRow>, bundle_id: &String) -> (r: Vec<NoteRow>)
    ensures
        r@ == ns@.filter(note_outside(bundle_id@)),
{
    let mut r: Vec<NoteRow> = Vec::new();
    let mut i: usize = 0;
    while i < ns.len()
        invariant
            i <= ns@.len(),
            r@ == ns@.take(i as int).filter(note_outside(bundle_id@)),
        decreases ns@.len() - i,
    {
        proof {
            lemma_filter_prefix_step(ns@, note_outside(bundle_id@), i as int);
        }
        if ns[i].bundle_id != *bundle_id {
            r.push(ns[i].copy());
        }
        i = i + 1;
    }
    proof {
        lemma_filter_whole(ns@, note_outside(bundle_id@));
    }
    r
}

fn tags_outside(ts: &Vec<Tag>, bundle_id: &String) -> (r: Vec<Tag>)
    ensures
        r@ == ts@.filter(tag_outside(bundle_id@)),
{
    let mut r: Vec<Tag> = Vec::new();
    let mut i: usize = 0;
    while i < ts.len()
        invariant
            i <= ts@.len(),
            r@ == ts@.take(i as int).filter(tag_outside(bundle_id@)),
        decreases ts@.len() - i,
    {
        proof {
            lemma_filter_prefix_step(ts@, tag_outside(bundle_id@), i as int);
        }
        if ts[i].bundle_id != *bundle_id {
            r.push(ts[i].copy());
        }
        i = i + 1;
    }
    proof {
        lemma_filter_whole(ts@, tag_outside(bundle_id@));
    }
    r
}

fn pairs_alive(nts: &Vec<NoteTag>, notes: &Vec<NoteRow>, tags: &Vec<Tag>) -> (r: Vec<NoteTag>)
    ensures
        r@ == nts@.filter(pair_alive(notes@, tags@)),
{
    let mut r: Vec<NoteTag> = Vec::new();
    let mut i: usize = 0;
    while i < nts.len()
        invariant
            i <= nts@.len(),
            r@ == nts@.take(i as int).filter(pair_alive(notes@, tags@)),
        decreases nts@.len() - i,
    {
        proof {
            lemma_filter_prefix_step(nts@, pair_alive(notes@, tags@), i as int);
        }
        let note_found = index_of_note(notes, &nts[i].note_id);
        let tag_found = index_of_tag(tags, &nts[i].tag_id);
        if note_found.is_some() && tag_found.is_some() {
            r.push(nts[i].copy());
        }
        i = i + 1;
    }
    proof {
        lemma_filter_whole(nts@, pair_alive(notes@, tags@));
    }
    r
}


fn notes_other_than(ns: &Vec<NoteRow>, id: &String) -> (r: Vec<NoteRow>)
    ensures
        r@ == ns@.filter(note_other_than(id@)),
{
    let mut r: Vec<NoteRow> = Vec::new();
    let mut i: usize = 0;
    while i < ns.len()
        invariant
            i <= ns@.len(),
            r@ == ns@.take(i as int).filter(note_other_than(id@)),
        decreases ns@.len() - i,
    {
        proof {
            lemma_filter_prefix_step(ns@, note_other_than(id@), i as int);
        }
        if ns[i].id != *id {
            r.push(ns[i].copy());
        }
        i = i + 1;
    }
    proof {
        lemma_filter_whole(ns@, note_other_than(id@));
    }
    r
}

fn tags_other_than(ts: &Vec<Tag>, id: &String) -> (r: Vec<Tag>)
    ensures
        r@ == ts@.filter(tag_other_than(id@)),
{
    let mut r: Vec<Tag> = Vec::new();
    let mut i: usize = 0;
    while i < ts.len()
        invariant
            i <= ts@.len(),
            r@ == ts@.take(i as int).filter(tag_other_than(id@)),
        decreases ts@.len() - i,
    {
        proof {
            lemma_filter_prefix_step(ts@, tag_other_than(id@), i as int);
        }
        if ts[i].id != *id {
            r.push(ts[i].copy());
        }
        i = i + 1;
    }
    proof {
        lemma_filter_whole(ts@, tag_other_than(id@));
    }
    r
}

fn pairs_other_than(nts: &Vec<NoteTag>, note_id: &String, tag_id: &String) -> (r: Vec<NoteTag>)
    ensures
        r@ == nts@.filter(pair_other_than(note_id@, tag_id@)),
{
    let mut r: Vec<NoteTag> = Vec::new();
    let mut i: usize = 0;
    while i < nts.len()
        invariant
            i <= nts@.len(),
            r@ == nts@.take(i as int).filter(pair_other_than(note_id@, tag_id@)),
        decreases nts@.len() - i,
    {
        proof {
            lemma_filter_prefix_step(nts@, pair_other_than(note_id@, tag_id@), i as int);
        }
        if !(nts[i].note_id == *note_id && nts[i].tag_id == *tag_id) {
            r.push(nts[i].copy());
        }
        i = i + 1;
    }
    proof {
        lemma_filter_whole(nts@, pair_other_than(note_id@, tag_id@));
    }
    r
}

// ---------- The statements ----------

impl Db {
    /// `INSERT INTO bundles`: appends the bundle unless its id is taken.
    pub fn insert_bundle(&mut self, b: Bundle) -> (r: Result<(), DbError>)
        requires
            old(self).wf(),
        ensures
            final(self).wf(),
            match spec_insert_bundle(old(self)@, b) {
                Ok(m) => r is Ok && final(self)@ == m,
                Err(e) => r == Err::<(), DbError>(e) && final(self)@ == old(self)@,
            },
    {
        if index_of_bundle(&self.bundles, &b.id).is_some() {
            return Err(DbError::DuplicateBundleId);
        }
        proof {
            lemma_insert_bundle_wf(self@, b);
        }
        self.bundles.push(b);
        proof {
            assert(self@ =~= spec_insert_bundle(old(self)@, b).unwrap());
        }
        Ok(())
    }

    /// `UPDATE bundles SET name = ?, updated_at = ? WHERE id = ?`.
    pub fn rename_bundle(&mut self, id: &String, name: &String, ts: &String)
        requires
            old(self).wf(),
        ensures
            final(self).wf(),
            final(self)@ == spec_rename_bundle(old(self)@, id@, *name, *ts),
    {
        let ghost f = renamed(id@, *name, *ts);
        let mut k: usize = 0;
        while k < self.bundles.len()
            invariant
                k <= self.bundles@.len(),
                self.bundles@.len() == old(self)@.bundles.len(),
                f == renamed(id@, *name, *ts),
                forall|j: int| 0 <= j < k ==> self.bundles@[j] == f(old(self)@.bundles[j]),
                forall|j: int| k <= j < self.bundles@.len() ==> self.bundles@[j] == old(self)@.bundles[j],
                self.notes@ == old(self)@.notes,
                self.tags@ == old(self)@.tags,
                self.note_tags@ == old(self)@.note_tags,
            decreases self.bundles@.len() - k,
        {
            if self.bundles[k].id == *id {
                let nb = Bundle {
                    id: self.bundles[k].id.clone(),
                    name: name.clone(),
                    color: copy_opt_string(&self.bundles[k].color),
                    archived: self.bundles[k].archived,
                    created_at: self.bundles[k].created_at.clone(),
                    updated_at: ts.clone(),
                };
                self.bundles.set(k, nb);
            }
            k = k + 1;
        }
        proof {
            assert(self@.bundles =~= old(self)@.bundles.map_values(f));
            lemma_rewrite_bundles_wf(old(self)@, self@.bundles);
            assert(self@ =~= spec_rename_bundle(old(self)@, id@, *name, *ts));
        }
    }

    /// `UPDATE bundles SET archived = ?, updated_at = ? WHERE id = ?`.
    pub fn set_bundle_archived(&mut self, id: &String, archived: bool, ts: &String)
        requires
            old(self).wf(),
        ensures
            final(self).wf(),
            final(self)@ == spec_set_bundle_archived(old(self)@, id@, archived, *ts),
    {
        let ghost f = archived_as(id@, archived, *ts);
        let mut k: usize = 0;
        while k < self.bundles.len()
            invariant
                k <= self.bundles@.len(),
                self.bundles@.len() == old(self)@.bundles.len(),
                f == archived_as(id@, archived, *ts),
                forall|j: int| 0 <= j < k ==> self.bundles@[j] == f(old(self)@.bundles[j]),
                forall|j: int| k <= j < self.bundles@.len() ==> self.bundles@[j] == old(self)@.bundles[j],
                self.notes@ == old(self)@.notes,
                self.tags@ == old(self)@.tags,
                self.note_tags@ == old(self)@.note_tags,
            decreases self.bundles@.len() - k,
        {
            if self.bundles[k].id == *id {
                let nb = Bundle {
                    id: self.bundles[k].id.clone(),
                    name: self.bundles[k].name.clone(),
                    color: copy_opt_string(&self.bundles[k].color),
                    archived: archived,
                    created_at: self.bundles[k].created_at.clone(),
                    updated_at: ts.clone(),
                };
                self.bundles.set(k, nb);
            }
            k = k + 1;
        }
        proof {
            assert(self@.bundles =~= old(self)@.bundles.map_values(f));
            lemma_rewrite_bundles_wf(old(self)@, self@.bundles);
            assert(self@ =~= spec_set_bundle_archived(old(self)@, id@, archived, *ts));
        }
    }

    /// `DELETE FROM bundles WHERE id = ?`, cascading to the bundle's notes,
    /// tags and their tag assignments.
    pub fn delete_bundle(&mut self, id: &String)
        requires
            old(self).wf(),
        ensures
            final(self).wf(),
            final(self)@ == spec_delete_bundle(old(self)@, id@),
    {
        let bundles = bundles_other_than(&self.bundles, id);
        let notes = notes_outside(&self.notes, id);
        let tags = tags_outside(&self.tags, id);
        let note_tags = pairs_alive(&self.note_tags, &notes, &tags);
        proof {
            lemma_delete_bundle_wf(self@, id@);
        }
        self.bundles = bundles;
        self.notes = notes;
        self.tags = tags;
        self.note_tags = note_tags;
        proof {
            assert(self@ =~= spec_delete_bundle(old(self)@, id@));
        }
    }

    /// `SELECT COALESCE(MAX(position) + 1, 0) FROM notes WHERE bundle_id = ?`.
    pub fn next_position(&self, bundle_id: &String) -> (r: Result<i64, DbError>)
        ensures
            r == spec_next_position(self@, bundle_id@),
    {
        let mut best: Option<i64> = None;
        let mut i: usize = 0;
        while i < self.notes.len()
            invariant
                i <= self@.notes.len(),
                best == max_position(self@.notes.take(i as int), bundle_id@),
            decreases self@.notes.len() - i,
        {
            proof {
                assert(self@.notes.take(i + 1).drop_last() =~= self@.notes.take(i as int));
            }
            if self.notes[i].bundle_id == *bundle_id {
                let p = self.notes[i].position;
                best = match best {
                    None => Some(p),
                    Some(q) => Some(if q < p { p } else { q }),
                };
            }
            i = i + 1;
        }
        proof {
            assert(self@.notes.take(self@.notes.len() as int) =~= self@.notes);
        }
        match best {
            None => Ok(0),
            Some(p) => if p == i64::MAX {
                Err(DbError::NextPositionNotInteger)
            } else {
                Ok(p + 1)
            },
        }
    }

    /// `INSERT INTO notes`: appends the row unless its id is taken or its
    /// bundle does not exist.
    pub fn insert_note(&mut self, n: NoteRow) -> (r: Result<(), DbError>)
        requires
            old(self).wf(),
        ensures
            final(self).wf(),
            match spec_insert_note(old(self)@, n) {
                Ok(m) => r is Ok && final(self)@ == m,
                Err(e) => r == Err::<(), DbError>(e) && final(self)@ == old(self)@,
            },
    {
        if index_of_note(&self.notes, &n.id).is_some() {
            return Err(DbError::DuplicateNoteId);
        }
        if index_of_bundle(&self.bundles, &n.bundle_id).is_none() {
            return Err(DbError::ForeignKey);
        }
        proof {
            lemma_insert_note_wf(self@, n);
        }
        self.notes.push(n);
        proof {
            assert(self@ =~= spec_insert_note(old(self)@, n).unwrap());
        }
        Ok(())
    }

    /// One of the `UPDATE notes SET ... WHERE id = ?` statements.
    pub fn change_note(&mut self, id: &String, c: &NoteChange, ts: &String)
        requires
            old(self).wf(),
        ensures
            final(self).wf(),
            final(self)@ == spec_change_note(old(self)@, id@, *c, *ts),
    {
        let ghost f = changed(id@, *c, *ts);
        let mut k: usize = 0;
        while k < self.notes.len()
            invariant
                f == changed(id@, *c, *ts),
                k <= self.notes@.len(),
                self.notes@.len() == old(self)@.notes.len(),
                forall|j: int| 0 <= j < k ==> self.notes@[j] == f(old(self)@.notes[j]),
                forall|j: int| k <= j < self.notes@.len() ==> self.notes@[j] == old(self)@.notes[j],
                self.bundles@ == old(self)@.bundles,
                self.tags@ == old(self)@.tags,
                self.note_tags@ == old(self)@.note_tags,
            decreases self.notes@.len() - k,
        {
            if self.notes[k].id == *id {
                let mut nr = self.notes[k].copy();
                match c {
                    NoteChange::Title(t) => {
                        nr.title = t.clone();
                        nr.sync_version = bump(nr.sync_version);
                    },
                    NoteChange::Content(t) => {
                        nr.content = t.clone();
                        nr.sync_version = bump(nr.sync_version);
                    },
                    NoteChange::Pinned(p) => {
                        nr.pinned = *p;
                    },
                    NoteChange::Position(p) => {
                        nr.position = *p;
                    },
                }
                nr.updated_at = ts.clone();
                self.notes.set(k, nr);
            }
            k = k + 1;
        }
        proof {
            assert(self@.notes =~= old(self)@.notes.map_values(f));
            lemma_rewrite_notes_wf(old(self)@, self@.notes);
            assert(self@ =~= spec_change_note(old(self)@, id@, *c, *ts));
        }
    }

    /// `DELETE FROM notes WHERE id = ?`, cascading to its tag assignments.
    pub fn delete_note(&mut self, id: &String)
        requires
            old(self).wf(),
        ensures
            final(self).wf(),
            final(self)@ == spec_delete_note(old(self)@, id@),
    {
        let notes = notes_other_than(&self.notes, id);
        let note_tags = pairs_alive(&self.note_tags, &notes, &self.tags);
        proof {
            lemma_delete_note_wf(self@, id@);
        }
        self.notes = notes;
        self.note_tags = note_tags;
        proof {
            assert(self@ =~= spec_delete_note(old(self)@, id@));
        }
    }

    /// `INSERT INTO tags`: appends the tag unless its id is taken or its
    /// bundle does not exist.
    pub fn insert_tag(&mut self, t: Tag) -> (r: Result<(), DbError>)
        requires
            old(self).wf(),
        ensures
            final(self).wf(),
            match spec_insert_tag(old(self)@, t) {
                Ok(m) => r is Ok && final(self)@ == m,
                Err(e) => r == Err::<(), DbError>(e) && final(self)@ == old(self)@,
            },
    {
        if index_of_tag(&self.tags, &t.id).is_some() {
            return Err(DbError::DuplicateTagId);
        }
        if index_of_bundle(&self.bundles, &t.bundle_id).is_none() {
            return Err(DbError::ForeignKey);
        }
        proof {
            lemma_insert_tag_wf(self@, t);
        }
        self.tags.push(t);
        proof {
            assert(self@ =~= spec_insert_tag(old(self)@, t).unwrap());
        }
        Ok(())
    }

    /// `DELETE FROM tags WHERE id = ?`, cascading to its assignments.
    pub fn delete_tag(&mut self, id: &String)
        requires
            old(self).wf(),
        ensures
            final(self).wf(),
            final(self)@ == spec_delete_tag(old(self)@, id@),
    {
        let tags = tags_other_than(&self.tags, id);
        let note_tags = pairs_alive(&self.note_tags, &self.notes, &tags);
        proof {
            lemma_delete_tag_wf(self@, id@);
        }
        self.tags = tags;
        self.note_tags = note_tags;
        proof {
            assert(self@ =~= spec_delete_tag(old(self)@, id@));
        }
    }

    /// `INSERT OR IGNORE INTO note_tags (note_id, tag_id) VALUES (?, ?)`.
    pub fn assign(&mut self, note_id: String, tag_id: String) -> (r: Result<(), DbError>)
        requires
            old(self).wf(),
        ensures
            final(self).wf(),
            match spec_assign(old(self)@, note_id, tag_id) {
                Ok(m) => r is Ok && final(self)@ == m,
                Err(e) => r == Err::<(), DbError>(e) && final(self)@ == old(self)@,
            },
    {
        let found_note = index_of_note(&self.notes, &note_id);
        let found_tag = index_of_tag(&self.tags, &tag_id);
        let (a, b) = match (found_note, found_tag) {
            (Some(a), Some(b)) => (a, b),
            _ => {
                return Err(DbError::ForeignKey);
            },
        };
        if self.notes[a].bundle_id != self.tags[b].bundle_id {
            proof {
                lemma_one_note_one_tag(self@, note_id@, tag_id@, a as int, b as int);
            }
            return Err(DbError::TagOfAnotherBundle);
        }
        proof {
            assert(in_one_bundle(self@, note_id@, tag_id@)) by {
                assert(self@.notes[a as int].id@ == note_id@ && self@.tags[b as int].id@ == tag_id@);
            }
        }
        if index_of_pair(&self.note_tags, &note_id, &tag_id).is_some() {
            return Ok(());
        }
        proof {
            lemma_assign_wf(self@, note_id, tag_id);
        }
        self.note_tags.push(NoteTag { note_id: note_id, tag_id: tag_id });
        proof {
            assert(self@ =~= spec_assign(old(self)@, note_id, tag_id).unwrap());
        }
        Ok(())
    }

    /// `DELETE FROM note_tags WHERE note_id = ? AND tag_id = ?`.
    pub fn unassign(&mut self, note_id: &String, tag_id: &String)
        requires
            old(self).wf(),
        ensures
            final(self).wf(),
            final(self)@ == spec_unassign(old(self)@, note_id@, tag_id@),
    {
        let note_tags = pairs_other_than(&self.note_tags, note_id, tag_id);
        proof {
            lemma_unassign_wf(self@, note_id@, tag_id@);
        }
        self.note_tags = note_tags;
        proof {
            assert(self@ =~= spec_unassign(old(self)@, note_id@, tag_id@));
        }
    }
}

fn bump(v: Option<i64>) -> (r: Option<i64>)
    ensures
        r == bumped(v),
{
    match v {
        Some(x) => if x < i64::MAX {
            Some(x + 1)
        } else {
            None
        },
        None => None,
    }
}

} // verus!
