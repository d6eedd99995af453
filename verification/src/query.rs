use vstd::prelude::*;
use crate::models::{Bundle, Note, Tag};
use crate::db::{Db, DbModel, DbError, NoteRow, NoteTag, has_pair, has_note, index_of_note, index_of_pair};
use crate::order::{ListingOrder, is_listed_in, sort_rows, text_le, text_le_exec, lemma_text_le_total, lemma_text_le_transitive};
use crate::like::{like, like_exec, pattern_too_long, pattern_too_long_exec};
use crate::table::{lemma_filter_prefix_step, lemma_filter_whole};

verus! {

broadcast use vstd::seq_lib::group_to_multiset_ensures;

// ---------- The orders of the listings ----------

/// `ORDER BY name`.
pub struct ByName;

impl ListingOrder<Bundle> for ByName {
    open spec fn before(a: Bundle, b: Bundle) -> bool {
        text_le(a.name@, b.name@)
    }

    proof fn lemma_total(a: Bundle, b: Bundle) {
        lemma_text_le_total(a.name@, b.name@);
    }

    proof fn lemma_transitive(a: Bundle, b: Bundle, c: Bundle) {
        lemma_text_le_transitive(a.name@, b.name@, c.name@);
    }

    fn comes_before(a: &Bundle, b: &Bundle) -> (r: bool) {
        text_le_exec(a.name.as_str(), b.name.as_str())
    }
}

impl ListingOrder<Tag> for ByName {
    open spec fn before(a: Tag, b: Tag) -> bool {
        text_le(a.name@, b.name@)
    }

    proof fn lemma_total(a: Tag, b: Tag) {
        lemma_text_le_total(a.name@, b.name@);
    }

    proof fn lemma_transitive(a: Tag, b: Tag, c: Tag) {
        lemma_text_le_transitive(a.name@, b.name@, c.name@);
    }

    fn comes_before(a: &Tag, b: &Tag) -> (r: bool) {
        text_le_exec(a.name.as_str(), b.name.as_str())
    }
}

/// `ORDER BY pinned DESC, position ASC`.
pub struct PinnedFirstByPosition;

impl ListingOrder<NoteRow> for PinnedFirstByPosition {
    open spec fn before(a: NoteRow, b: NoteRow) -> bool {
        (a.pinned && !b.pinned) || (a.pinned == b.pinned && a.position <= b.position)
    }

    proof fn lemma_total(a: NoteRow, b: NoteRow) {
    }

    proof fn lemma_transitive(a: NoteRow, b: NoteRow, c: NoteRow) {
    }

    fn comes_before(a: &NoteRow, b: &NoteRow) -> (r: bool) {
        (a.pinned && !b.pinned) || (a.pinned == b.pinned && a.position <= b.position)
    }
}

/// `ORDER BY updated_at DESC`.
pub struct LatestFirst;

impl ListingOrder<NoteRow> for LatestFirst {
    open spec fn before(a: NoteRow, b: NoteRow) -> bool {
        text_le(b.updated_at@, a.updated_at@)
    }

    proof fn lemma_total(a: NoteRow, b: NoteRow) {
        lemma_text_le_total(b.updated_at@, a.updated_at@);
    }

    proof fn lemma_transitive(a: NoteRow, b: NoteRow, c: NoteRow) {
        lemma_text_le_transitive(c.updated_at@, b.updated_at@, a.updated_at@);
    }

    fn comes_before(a: &NoteRow, b: &NoteRow) -> (r: bool) {
        text_le_exec(b.updated_at.as_str(), a.updated_at.as_str())
    }
}

// ---------- What the queries return ----------

/// `WHERE archived = 0` unless archived bundles are asked for too.
pub open spec fn bundle_listed(include_archived: bool) -> spec_fn(Bundle) -> bool {
    |b: Bundle| include_archived || !b.archived
}

/// `SELECT ... FROM bundles [WHERE archived = 0] ORDER BY name`: exactly
/// those bundles, each once, by name.
pub open spec fn is_bundle_listing(m: DbModel, include_archived: bool, r: Seq<Bundle>) -> bool {
    &&& r.to_multiset() == m.bundles.filter(bundle_listed(include_archived)).to_multiset()
    &&& is_listed_in::<Bundle, ByName>(r)
}

/// The tag is assigned to the note.
pub open spec fn tag_assigned(note_tags: Seq<NoteTag>, note_id: Seq<char>) -> spec_fn(Tag) -> bool {
    |t: Tag| has_pair(note_tags, note_id, t.id@)
}

/// The tags of a note (`JOIN note_tags ... ORDER BY t.name`): exactly the
/// tags assigned to it, each once, by name.
pub open spec fn is_tag_listing_of_note(m: DbModel, note_id: Seq<char>, r: Seq<Tag>) -> bool {
    &&& r.to_multiset() == m.tags.filter(tag_assigned(m.note_tags, note_id)).to_multiset()
    &&& is_listed_in::<Tag, ByName>(r)
}

pub open spec fn tag_in_bundle(bundle_id: Seq<char>) -> spec_fn(Tag) -> bool {
    |t: Tag| t.bundle_id@ == bundle_id
}

/// `SELECT ... FROM tags WHERE bundle_id = ? ORDER BY name`.
pub open spec fn is_tag_listing_of_bundle(m: DbModel, bundle_id: Seq<char>, r: Seq<Tag>) -> bool {
    &&& r.to_multiset() == m.tags.filter(tag_in_bundle(bundle_id)).to_multiset()
    &&& is_listed_in::<Tag, ByName>(r)
}

/// The row that a note was read from.
pub open spec fn row_of_note(n: Note) -> NoteRow {
    NoteRow {
        id: n.id,
        bundle_id: n.bundle_id,
        title: n.title,
        content: n.content,
        pinned: n.pinned,
        position: n.position,
        created_at: n.created_at,
        updated_at: n.updated_at,
        sync_version: Some(n.sync_version),
    }
}

pub open spec fn rows_of_notes(ns: Seq<Note>) -> Seq<NoteRow> {
    ns.map_values(|n: Note| row_of_note(n))
}

/// `n` is the note read from `row`: its fields, and its tags.
pub open spec fn is_note_of_row(m: DbModel, row: NoteRow, n: Note) -> bool {
    &&& row_of_note(n) == row
    &&& is_tag_listing_of_note(m, row.id@, n.tags@)
}

/// Every note carries its tags.
pub open spec fn all_tagged(m: DbModel, ns: Seq<Note>) -> bool {
    forall|i: int| 0 <= i < ns.len() ==> is_tag_listing_of_note(m, (#[trigger] ns[i]).id@, ns[i].tags@)
}

/// The row reads as a note: its `sync_version` is still an integer.
pub open spec fn readable() -> spec_fn(NoteRow) -> bool {
    |n: NoteRow| n.sync_version is Some
}

pub open spec fn readable_in_bundle(bundle_id: Seq<char>) -> spec_fn(NoteRow) -> bool {
    |n: NoteRow| n.bundle_id@ == bundle_id && n.sync_version is Some
}

/// `SELECT ... FROM notes WHERE bundle_id = ? ORDER BY pinned DESC, position ASC`,
/// less the rows that do not read as notes.
pub open spec fn is_note_listing(m: DbModel, bundle_id: Seq<char>, r: Seq<Note>) -> bool {
    &&& rows_of_notes(r).to_multiset() == m.notes.filter(readable_in_bundle(bundle_id)).to_multiset()
    &&& is_listed_in::<NoteRow, PinnedFirstByPosition>(rows_of_notes(r))
    &&& all_tagged(m, r)
}

/// `title LIKE pattern OR content LIKE pattern`.
pub open spec fn matches_pattern(pattern: Seq<char>) -> spec_fn(NoteRow) -> bool {
    |n: NoteRow| like(pattern, n.title@) || like(pattern, n.content@)
}

/// The most rows that a search returns.
pub const SEARCH_LIMIT: usize = 100;

pub open spec fn limited(len: nat) -> int {
    if len < SEARCH_LIMIT {
        len as int
    } else {
        SEARCH_LIMIT as int
    }
}

/// `SELECT ... FROM notes WHERE title LIKE ?1 OR content LIKE ?1 ORDER BY
/// updated_at DESC LIMIT 100`, less the rows that do not read as notes:
/// the matching rows, latest first, the first hundred of them. A pattern
/// that is too long makes the statement fail on its first row, and the
/// failed row is skipped like any unreadable one: nothing is found.
pub open spec fn is_search_result(m: DbModel, pattern: Seq<char>, r: Seq<Note>) -> bool {
    if pattern_too_long(pattern) {
        r.len() == 0
    } else {
        &&& exists|s: Seq<NoteRow>|
            {
                &&& s.to_multiset() == m.notes.filter(matches_pattern(pattern)).to_multiset()
                &&& is_listed_in::<NoteRow, LatestFirst>(s)
                &&& #[trigger] rows_of_notes(r) == s.take(limited(s.len())).filter(readable())
            }
        &&& all_tagged(m, r)
    }
}

/// What reading the note `id` gives: no row, a row that does not read, or the note.
pub open spec fn is_note_read(m: DbModel, id: Seq<char>, r: Result<Note, DbError>) -> bool {
    match r {
        Ok(n) => exists|k: int|
            0 <= k < m.notes.len() && (#[trigger] m.notes[k]).id@ == id && is_note_of_row(
                m,
                m.notes[k],
                n,
            ),
        Err(DbError::NoRows) => !has_note(m.notes, id),
        Err(DbError::SyncVersionNotInteger) => exists|k: int|
            0 <= k < m.notes.len() && (#[trigger] m.notes[k]).id@ == id
                && m.notes[k].sync_version is None,
        Err(_) => false,
    }
}

// ---------- The queries ----------

impl Db {
    /// `SELECT ... FROM bundles [WHERE archived = 0] ORDER BY name`.
    pub fn query_bundles(&self, include_archived: bool) -> (r: Vec<Bundle>)
        ensures
            is_bundle_listing(self@, include_archived, r@),
    {
        let rows = self.bundle_rows();
        let mut picked: Vec<Bundle> = Vec::new();
        let mut i: usize = 0;
        while i < rows.len()
            invariant
                rows@ == self@.bundles,
                i <= rows@.len(),
                picked@ == rows@.take(i as int).filter(bundle_listed(include_archived)),
            decreases rows@.len() - i,
        {
            proof {
                lemma_filter_prefix_step(rows@, bundle_listed(include_archived), i as int);
            }
            if include_archived || !rows[i].archived {
                picked.push(rows[i].copy());
            }
            i = i + 1;
        }
        proof {
            lemma_filter_whole(rows@, bundle_listed(include_archived));
        }
        sort_rows::<Bundle, ByName>(picked)
    }

    /// `SELECT ... FROM tags WHERE bundle_id = ? ORDER BY name`.
    pub fn query_tags_in_bundle(&self, bundle_id: &String) -> (r: Vec<Tag>)
        ensures
            is_tag_listing_of_bundle(self@, bundle_id@, r@),
    {
        let rows = self.tag_rows();
        let mut picked: Vec<Tag> = Vec::new();
        let mut i: usize = 0;
        while i < rows.len()
            invariant
                rows@ == self@.tags,
                i <= rows@.len(),
                picked@ == rows@.take(i as int).filter(tag_in_bundle(bundle_id@)),
            decreases rows@.len() - i,
        {
            proof {
                lemma_filter_prefix_step(rows@, tag_in_bundle(bundle_id@), i as int);
            }
            if rows[i].bundle_id == *bundle_id {
                picked.push(rows[i].copy());
            }
            i = i + 1;
        }
        proof {
            lemma_filter_whole(rows@, tag_in_bundle(bundle_id@));
        }
        sort_rows::<Tag, ByName>(picked)
    }

    /// The tags assigned to a note, by name.
    pub fn tags_for_note(&self, note_id: &String) -> (r: Vec<Tag>)
        ensures
            is_tag_listing_of_note(self@, note_id@, r@),
    {
        let rows = self.tag_rows();
        let pairs = self.note_tag_rows();
        let mut picked: Vec<Tag> = Vec::new();
        let mut i: usize = 0;
        while i < rows.len()
            invariant
                rows@ == self@.tags,
                pairs@ == self@.note_tags,
                i <= rows@.len(),
                picked@ == rows@.take(i as int).filter(tag_assigned(pairs@, note_id@)),
            decreases rows@.len() - i,
        {
            proof {
                lemma_filter_prefix_step(rows@, tag_assigned(pairs@, note_id@), i as int);
            }
            if index_of_pair(pairs, note_id, &rows[i].id).is_some() {
                picked.push(rows[i].copy());
            }
            i = i + 1;
        }
        proof {
            lemma_filter_whole(rows@, tag_assigned(pairs@, note_id@));
        }
        sort_rows::<Tag, ByName>(picked)
    }

    /// Reads a note row together with its tags; a row whose
    /// `sync_version` is no longer an integer does not read.
    pub fn row_to_note(&self, row: &NoteRow) -> (r: Result<Note, DbError>)
        ensures
            match r {
                Ok(n) => row.sync_version is Some && is_note_of_row(self@, *row, n),
                Err(e) => row.sync_version is None && e == DbError::SyncVersionNotInteger,
            },
    {
        match row.sync_version {
            None => Err(DbError::SyncVersionNotInteger),
            Some(v) => {
                let tags = self.tags_for_note(&row.id);
                Ok(
                    Note {
                        id: row.id.clone(),
                        bundle_id: row.bundle_id.clone(),
                        title: row.title.clone(),
                        content: row.content.clone(),
                        pinned: row.pinned,
                        position: row.position,
                        created_at: row.created_at.clone(),
                        updated_at: row.updated_at.clone(),
                        sync_version: v,
                        tags: tags,
                    },
                )
            },
        }
    }

    /// `SELECT ... FROM notes WHERE id = ?`, read as a note.
    pub fn query_note(&self, id: &String) -> (r: Result<Note, DbError>)
        ensures
            is_note_read(self@, id@, r),
    {
        let rows = self.note_rows();
        match index_of_note(rows, id) {
            None => Err(DbError::NoRows),
            Some(k) => self.row_to_note(&rows[k]),
        }
    }

    /// Reads rows that all read as notes, keeping their order.
    fn read_rows(&self, rows: &Vec<NoteRow>) -> (r: Vec<Note>)
        requires
            forall|i: int| 0 <= i < rows@.len() ==> (#[trigger] rows@[i]).sync_version is Some,
        ensures
            rows_of_notes(r@) == rows@,
            all_tagged(self@, r@),
    {
        let mut out: Vec<Note> = Vec::new();
        let mut i: usize = 0;
        while i < rows.len()
            invariant
                i <= rows@.len(),
                forall|j: int| 0 <= j < rows@.len() ==> (#[trigger] rows@[j]).sync_version is Some,
                out@.len() == i,
                rows_of_notes(out@) == rows@.take(i as int),
                all_tagged(self@, out@),
            decreases rows@.len() - i,
        {
            let ghost old_out = out@;
            let n = self.row_to_note(&rows[i]);
            match n {
                Ok(n) => {
                    out.push(n);
                },
                Err(_) => {
                    assert(false);
                },
            }
            proof {
                assert forall|j: int| 0 <= j < i + 1 implies #[trigger] rows_of_notes(out@)[j]
                    == rows@.take(i + 1)[j] by {
                    if j < i {
                        assert(out@[j] == old_out[j]);
                        assert(rows_of_notes(old_out)[j] == rows@.take(i as int)[j]);
                    }
                }
                assert(rows_of_notes(out@) =~= rows@.take(i + 1));
                assert forall|j: int| 0 <= j < out@.len() implies is_tag_listing_of_note(
                    self@,
                    (#[trigger] out@[j]).id@,
                    out@[j].tags@,
                ) by {
                    if j < i {
                        assert(out@[j] == old_out[j]);
                    }
                }
            }
            i = i + 1;
        }
        proof {
            assert(rows@.take(rows@.len() as int) =~= rows@);
        }
        out
    }

    /// `SELECT ... FROM notes WHERE bundle_id = ? ORDER BY pinned DESC,
    /// position ASC`, skipping rows that do not read as notes.
    pub fn query_notes_in_bundle(&self, bundle_id: &String) -> (r: Vec<Note>)
        ensures
            is_note_listing(self@, bundle_id@, r@),
    {
        let rows = self.note_rows();
        let mut picked: Vec<NoteRow> = Vec::new();
        let mut i: usize = 0;
        while i < rows.len()
            invariant
                rows@ == self@.notes,
                i <= rows@.len(),
                picked@ == rows@.take(i as int).filter(readable_in_bundle(bundle_id@)),
            decreases rows@.len() - i,
        {
            proof {
                lemma_filter_prefix_step(rows@, readable_in_bundle(bundle_id@), i as int);
            }
            if rows[i].bundle_id == *bundle_id && rows[i].sync_version.is_some() {
                picked.push(rows[i].copy());
            }
            i = i + 1;
        }
        proof {
            lemma_filter_whole(rows@, readable_in_bundle(bundle_id@));
            crate::table::lemma_filter_rows(rows@, readable_in_bundle(bundle_id@));
        }
        let ghost before_sort = picked@;
        let sorted = sort_rows::<NoteRow, PinnedFirstByPosition>(picked);
        proof {
            assert forall|i: int| 0 <= i < sorted@.len() implies (#[trigger] sorted@[i]).sync_version is Some by {
                assert(sorted@.to_multiset().count(sorted@[i]) > 0);
                assert(before_sort.contains(sorted@[i]));
                let j = choose|j: int| 0 <= j < before_sort.len() && before_sort[j] == sorted@[i];
                assert(readable_in_bundle(bundle_id@)(before_sort[j]));
            }
        }
        self.read_rows(&sorted)
    }

    /// `SELECT ... FROM notes WHERE title LIKE ?1 OR content LIKE ?1 ORDER BY
    /// updated_at DESC LIMIT 100`, skipping rows that do not read as notes.
    pub fn query_notes_like(&self, pattern: &String) -> (r: Vec<Note>)
        ensures
            is_search_result(self@, pattern@, r@),
    {
        if pattern_too_long_exec(pattern.as_str()) {
            return Vec::new();
        }
        let rows = self.note_rows();
        let mut picked: Vec<NoteRow> = Vec::new();
        let mut i: usize = 0;
        while i < rows.len()
            invariant
                rows@ == self@.notes,
                i <= rows@.len(),
                picked@ == rows@.take(i as int).filter(matches_pattern(pattern@)),
            decreases rows@.len() - i,
        {
            proof {
                lemma_filter_prefix_step(rows@, matches_pattern(pattern@), i as int);
            }
            if like_exec(pattern.as_str(), rows[i].title.as_str()) || like_exec(
                pattern.as_str(),
                rows[i].content.as_str(),
            ) {
                picked.push(rows[i].copy());
            }
            i = i + 1;
        }
        proof {
            lemma_filter_whole(rows@, matches_pattern(pattern@));
        }
        let sorted = sort_rows::<NoteRow, LatestFirst>(picked);
        let limit: usize = if sorted.len() < SEARCH_LIMIT {
            sorted.len()
        } else {
            SEARCH_LIMIT
        };
        let ghost head = sorted@.take(limit as int);
        let mut kept: Vec<NoteRow> = Vec::new();
        let mut k: usize = 0;
        while k < limit
            invariant
                limit <= sorted@.len(),
                head == sorted@.take(limit as int),
                k <= limit,
                kept@ == head.take(k as int).filter(readable()),
            decreases limit - k,
        {
            proof {
                lemma_filter_prefix_step(head, readable(), k as int);
            }
            if sorted[k].sync_version.is_some() {
                kept.push(sorted[k].copy());
            }
            k = k + 1;
        }
        proof {
            lemma_filter_whole(head, readable());
            crate::table::lemma_filter_rows(head, readable());
        }
        let r = self.read_rows(&kept);
        proof {
            assert(rows_of_notes(r@) == sorted@.take(limited(sorted@.len())).filter(readable()));
        }
        r
    }
}

} // verus!
