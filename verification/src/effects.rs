//! What each command does, stated over its inputs and results: the fields
//! of what it creates, when it succeeds, which rows it touches, and the order
//! of what it lists.

use vstd::prelude::*;
use crate::models::{Bundle, Note, NewNote, Tag};
use crate::order::{ListingOrder, text_le, text_le_from};
use crate::db::{
    DbModel, DbError, NoteRow, model_wf, has_bundle, has_note, has_tag, has_pair,
    max_position, bumped, spec_rename_bundle, spec_set_bundle_archived, spec_assign, spec_unassign,
    pair_key, pair_other_than, spec_delete_bundle, spec_delete_note, spec_delete_tag,
    note_other_than, tag_other_than, bundle_other_than, pair_alive, note_key, tag_key,
};
use crate::table::{lemma_filter_rows, lemma_filter_keeps, lemma_filter_keeps_key, lemma_listing_of_filter, lemma_filter_listed};
use crate::query::{
    ByName, PinnedFirstByPosition, is_bundle_listing, is_tag_listing_of_bundle, is_note_listing,
    rows_of_notes, row_of_note, is_tag_listing_of_note, is_note_read, is_search_result, LatestFirst, limited,
    readable, matches_pattern, bundle_listed, tag_in_bundle, readable_in_bundle, tag_assigned,
};
use crate::like::like;
use crate::commands::{is_bundle_created, is_tag_created, is_note_created};
use crate::laws::lemma_next_position_is_last;

verus! {

broadcast use vstd::seq_lib::group_to_multiset_ensures;

// ---------- Creating ----------

/// Creating a bundle succeeds exactly when its id is new. The bundle
/// returned carries the id, name and color given, is unarchived, is created
/// and updated at the given time, and is appended to the bundles; nothing
/// else changes. A refusal leaves the store as it was.
pub proof fn lemma_create_bundle_effect(
    before: DbModel,
    after: DbModel,
    id: String,
    ts: String,
    name: String,
    color: Option<String>,
    r: Result<Bundle, String>,
)
    requires
        is_bundle_created(before, after, id, ts, name, color, r),
    ensures
        r is Ok <==> !has_bundle(before.bundles, id@),
        r matches Ok(b) ==> {
            &&& b.id == id && b.name == name && b.color == color && !b.archived
            &&& b.created_at == ts && b.updated_at == ts
            &&& after.bundles == before.bundles.push(b)
            &&& after.notes == before.notes && after.tags == before.tags
            &&& after.note_tags == before.note_tags
        },
        r is Err ==> after == before,
{
}

/// Creating a tag succeeds exactly when its id is new and its bundle
/// exists. The tag returned carries the id, bundle, name and color given and
/// is appended to the tags; nothing else changes. A refusal leaves the store
/// as it was.
pub proof fn lemma_create_tag_effect(
    before: DbModel,
    after: DbModel,
    id: String,
    bundle_id: String,
    name: String,
    color: Option<String>,
    r: Result<Tag, String>,
)
    requires
        is_tag_created(before, after, id, bundle_id, name, color, r),
    ensures
        r is Ok <==> !has_tag(before.tags, id@) && has_bundle(before.bundles, bundle_id@),
        r matches Ok(t) ==> {
            &&& t.id == id && t.bundle_id == bundle_id && t.name == name && t.color == color
            &&& after.tags == before.tags.push(t)
            &&& after.bundles == before.bundles && after.notes == before.notes
            &&& after.note_tags == before.note_tags
        },
        r is Err ==> after == before,
{
}

/// The notes of a bundle.
pub open spec fn in_bundle(n: NoteRow, bundle_id: Seq<char>) -> bool {
    n.bundle_id@ == bundle_id
}

proof fn lemma_max_position_attained(ns: Seq<NoteRow>, bundle_id: Seq<char>)
    ensures
        max_position(ns, bundle_id) matches Some(p) ==> exists|k: int|
            0 <= k < ns.len() && in_bundle(#[trigger] ns[k], bundle_id) && ns[k].position == p,
    decreases ns.len(),
{
    if ns.len() > 0 {
        let d = ns.drop_last();
        lemma_max_position_attained(d, bundle_id);
        if let Some(p) = max_position(d, bundle_id) {
            let k = choose|k: int| 0 <= k < d.len() && in_bundle(#[trigger] d[k], bundle_id) && d[k].position == p;
            assert(ns[k] == d[k]);
        }
        let z = ns.len() - 1;
        assert(ns[z] == ns.last());
    }
}

/// Creating a note succeeds exactly when its id is new, its bundle exists,
/// and no note of that bundle sits at position `i64::MAX`. The note returned
/// carries the id, bundle, title and content given, whatever they are; it is
/// unpinned, at sync version 0, without tags, created and updated at the
/// given time, and placed one past the largest position of its bundle (0 in
/// an empty bundle). It is appended to the notes; nothing else changes. A
/// refusal leaves the store as it was.
pub proof fn lemma_create_note_effect(
    before: DbModel,
    after: DbModel,
    id: String,
    ts: String,
    payload: NewNote,
    r: Result<Note, String>,
)
    requires
        model_wf(before),
        is_note_created(before, after, id, ts, payload, r),
    ensures
        r is Ok <==> {
            &&& !has_note(before.notes, id@)
            &&& has_bundle(before.bundles, payload.bundle_id@)
            &&& forall|k: int|
                0 <= k < before.notes.len() && in_bundle(#[trigger] before.notes[k], payload.bundle_id@)
                    ==> before.notes[k].position != i64::MAX
        },
        r matches Ok(n) ==> {
            &&& n.id == id && n.bundle_id == payload.bundle_id
            &&& n.title == payload.title && n.content == payload.content
            &&& !n.pinned && n.sync_version == 0 && n.tags@.len() == 0
            &&& n.created_at == ts && n.updated_at == ts
            &&& forall|k: int|
                0 <= k < before.notes.len() && in_bundle(#[trigger] before.notes[k], payload.bundle_id@)
                    ==> before.notes[k].position < n.position
            &&& (n.position == 0 || exists|k: int|
                0 <= k < before.notes.len() && in_bundle(#[trigger] before.notes[k], payload.bundle_id@)
                    && before.notes[k].position == n.position - 1)
            &&& ((forall|k: int| 0 <= k < before.notes.len() ==> !in_bundle(#[trigger] before.notes[k], payload.bundle_id@))
                ==> n.position == 0)
            &&& after.notes == before.notes.push(row_of_note(n))
            &&& after.bundles == before.bundles && after.tags == before.tags
            &&& after.note_tags == before.note_tags
        },
        r is Err ==> after == before,
{
    let bid = payload.bundle_id@;
    lemma_next_position_is_last(before, bid);
    lemma_max_position_attained(before.notes, bid);
    crate::laws::lemma_max_position_bounds_pub(before.notes, bid);
    crate::laws::lemma_max_position_none_pub(before.notes, bid);
    if !has_bundle(before.bundles, bid) {
        assert forall|k: int| 0 <= k < before.notes.len() implies !in_bundle(#[trigger] before.notes[k], bid) by {
            assert(has_bundle(before.bundles, before.notes[k].bundle_id@));
        }
    }
    match max_position(before.notes, bid) {
        Some(p) => {
            let k = choose|k: int| 0 <= k < before.notes.len() && in_bundle(#[trigger] before.notes[k], bid) && before.notes[k].position == p;
            if p != i64::MAX {
                assert forall|j: int| 0 <= j < before.notes.len() && in_bundle(#[trigger] before.notes[j], bid)
                    implies before.notes[j].position != i64::MAX by {
                    assert(before.notes[j].position <= p);
                }
            }
        },
        None => {},
    }
}

// ---------- Changing bundles ----------

/// Renaming touches only the bundles with that id: each gets the new name
/// and the stamp, and keeps its id, color, archived flag and creation time;
/// every other bundle, note, tag and assignment stays as it was.
pub proof fn lemma_rename_bundle_effect(m: DbModel, id: Seq<char>, name: String, ts: String)
    ensures
        ({
            let r = spec_rename_bundle(m, id, name, ts);
            &&& r.bundles.len() == m.bundles.len()
            &&& forall|k: int|
                0 <= k < m.bundles.len() && (#[trigger] m.bundles[k]).id@ != id ==> r.bundles[k]
                    == m.bundles[k]
            &&& forall|k: int|
                0 <= k < m.bundles.len() && (#[trigger] m.bundles[k]).id@ == id ==> {
                    &&& r.bundles[k].name == name && r.bundles[k].updated_at == ts
                    &&& r.bundles[k].id == m.bundles[k].id && r.bundles[k].color == m.bundles[k].color
                    &&& r.bundles[k].archived == m.bundles[k].archived
                    &&& r.bundles[k].created_at == m.bundles[k].created_at
                }
            &&& r.notes == m.notes && r.tags == m.tags && r.note_tags == m.note_tags
        }),
{
}

/// Archiving or unarchiving touches only the bundles with that id: each gets
/// the flag and the stamp, and keeps its id, name, color and creation time;
/// every other bundle, note, tag and assignment stays as it was.
pub proof fn lemma_set_bundle_archived_effect(m: DbModel, id: Seq<char>, archived: bool, ts: String)
    ensures
        ({
            let r = spec_set_bundle_archived(m, id, archived, ts);
            &&& r.bundles.len() == m.bundles.len()
            &&& forall|k: int|
                0 <= k < m.bundles.len() && (#[trigger] m.bundles[k]).id@ != id ==> r.bundles[k]
                    == m.bundles[k]
            &&& forall|k: int|
                0 <= k < m.bundles.len() && (#[trigger] m.bundles[k]).id@ == id ==> {
                    &&& r.bundles[k].archived == archived && r.bundles[k].updated_at == ts
                    &&& r.bundles[k].id == m.bundles[k].id && r.bundles[k].name == m.bundles[k].name
                    &&& r.bundles[k].color == m.bundles[k].color
                    &&& r.bundles[k].created_at == m.bundles[k].created_at
                }
            &&& r.notes == m.notes && r.tags == m.tags && r.note_tags == m.note_tags
        }),
{
}

// ---------- Assigning tags ----------

/// Assigning a tag to a note of its own bundle succeeds; afterwards the tag
/// is assigned to the note, every earlier assignment remains, at most one is
/// added, and nothing else changes. A missing note or tag is refused with a
/// foreign-key error and no change.
pub proof fn lemma_assign_effect(m: DbModel, note_id: String, tag_id: String)
    requires
        model_wf(m),
    ensures
        !has_note(m.notes, note_id@) || !has_tag(m.tags, tag_id@) ==> spec_assign(m, note_id, tag_id)
            == Err::<DbModel, DbError>(DbError::ForeignKey),
        (exists|k: int, j: int|
            0 <= k < m.notes.len() && 0 <= j < m.tags.len() && (#[trigger] m.notes[k]).id@ == note_id@
                && (#[trigger] m.tags[j]).id@ == tag_id@ && m.notes[k].bundle_id@ == m.tags[j].bundle_id@)
            ==> (spec_assign(m, note_id, tag_id) matches Ok(r) && {
            &&& has_pair(r.note_tags, note_id@, tag_id@)
            &&& forall|i: int| 0 <= i < m.note_tags.len() ==> r.note_tags.contains(#[trigger] m.note_tags[i])
            &&& r.note_tags.len() <= m.note_tags.len() + 1
            &&& r.bundles == m.bundles && r.notes == m.notes && r.tags == m.tags
        }),
{
    if exists|k: int, j: int|
        0 <= k < m.notes.len() && 0 <= j < m.tags.len() && (#[trigger] m.notes[k]).id@ == note_id@
            && (#[trigger] m.tags[j]).id@ == tag_id@ && m.notes[k].bundle_id@ == m.tags[j].bundle_id@ {
        let (k, j) = choose|k: int, j: int|
            0 <= k < m.notes.len() && 0 <= j < m.tags.len() && (#[trigger] m.notes[k]).id@ == note_id@
                && (#[trigger] m.tags[j]).id@ == tag_id@ && m.notes[k].bundle_id@ == m.tags[j].bundle_id@;
        assert(crate::db::note_key()(m.notes[k]) == note_id@);
        assert(crate::db::tag_key()(m.tags[j]) == tag_id@);
        let r = spec_assign(m, note_id, tag_id).unwrap();
        if !has_pair(m.note_tags, note_id@, tag_id@) {
            let z = m.note_tags.len() as int;
            assert(pair_key()(r.note_tags[z]) == (note_id@, tag_id@));
            assert forall|i: int| 0 <= i < m.note_tags.len() implies r.note_tags.contains(#[trigger] m.note_tags[i]) by {
                assert(r.note_tags[i] == m.note_tags[i]);
            }
        }
    }
}

/// Removing an assignment removes exactly that one: afterwards the tag is
/// not assigned to the note, every other assignment remains, none is added,
/// and nothing else changes.
pub proof fn lemma_unassign_effect(m: DbModel, note_id: Seq<char>, tag_id: Seq<char>)
    ensures
        ({
            let r = spec_unassign(m, note_id, tag_id);
            &&& !has_pair(r.note_tags, note_id, tag_id)
            &&& forall|i: int|
                0 <= i < m.note_tags.len() && ((#[trigger] m.note_tags[i]).note_id@ != note_id
                    || m.note_tags[i].tag_id@ != tag_id) ==> r.note_tags.contains(m.note_tags[i])
            &&& forall|i: int| 0 <= i < r.note_tags.len() ==> m.note_tags.contains(#[trigger] r.note_tags[i])
            &&& r.bundles == m.bundles && r.notes == m.notes && r.tags == m.tags
        }),
{
    let r = spec_unassign(m, note_id, tag_id);
    let p = pair_other_than(note_id, tag_id);
    lemma_filter_rows(m.note_tags, p);
    if has_pair(r.note_tags, note_id, tag_id) {
        let k = choose|k: int| 0 <= k < r.note_tags.len() && pair_key()(#[trigger] r.note_tags[k]) == (note_id, tag_id);
        assert(p(r.note_tags[k]));
    }
    assert forall|i: int|
        0 <= i < m.note_tags.len() && ((#[trigger] m.note_tags[i]).note_id@ != note_id
            || m.note_tags[i].tag_id@ != tag_id) implies r.note_tags.contains(m.note_tags[i]) by {
        crate::table::lemma_filter_keeps(m.note_tags, p, i);
    }
}

// ---------- Orders of the listings ----------

/// Text order, stated without recursion: `a` sorts no later than `b` exactly
/// when `a` is a prefix of `b`, or at the first position where they differ
/// `a` has the smaller character.
pub proof fn lemma_text_le_meaning(a: Seq<char>, b: Seq<char>)
    ensures
        text_le(a, b) <==> (a.len() <= b.len() && a == b.take(a.len() as int)) || exists|i: int|
            0 <= i < a.len() && i < b.len() && a.take(i) == b.take(i) && #[trigger] a[i] < b[i],
{
    lemma_text_le_from_meaning(a, b, 0);
    assert(a.take(0) =~= b.take(0));
}

proof fn lemma_text_le_from_meaning(a: Seq<char>, b: Seq<char>, s: int)
    requires
        0 <= s,
        s <= a.len(),
        s <= b.len(),
        a.take(s) == b.take(s),
    ensures
        text_le_from(a, b, s) <==> (a.len() <= b.len() && a == b.take(a.len() as int)) || exists|i: int|
            0 <= i < a.len() && i < b.len() && a.take(i) == b.take(i) && #[trigger] a[i] < b[i],
    decreases a.len() - s,
{
    if s < a.len() && s < b.len() {
        if a[s] == b[s] {
            assert(a.take(s + 1) =~= b.take(s + 1)) by {
                assert forall|t: int| 0 <= t < s + 1 implies #[trigger] a.take(s + 1)[t] == b.take(s + 1)[t] by {
                    if t < s {
                        assert(a.take(s)[t] == b.take(s)[t]);
                    }
                }
            }
            lemma_text_le_from_meaning(a, b, s + 1);
            if exists|i: int| 0 <= i < a.len() && i < b.len() && a.take(i) == b.take(i) && #[trigger] a[i] < b[i] {
                let i = choose|i: int| 0 <= i < a.len() && i < b.len() && a.take(i) == b.take(i) && #[trigger] a[i] < b[i];
                if i < s {
                    assert(a.take(s)[i] == a[i] && b.take(s)[i] == b[i]);
                }
            }
        } else {
            if a[s] < b[s] {
                assert(a.take(s) == b.take(s) && a[s] < b[s]);
            } else {
                if exists|i: int| 0 <= i < a.len() && i < b.len() && a.take(i) == b.take(i) && #[trigger] a[i] < b[i] {
                    let i = choose|i: int| 0 <= i < a.len() && i < b.len() && a.take(i) == b.take(i) && #[trigger] a[i] < b[i];
                    if i < s {
                        assert(a.take(s)[i] == a[i] && b.take(s)[i] == b[i]);
                    } else if i > s {
                        assert(a.take(i)[s] == a[s] && b.take(i)[s] == b[s]);
                    }
                }
                if a.len() <= b.len() && a == b.take(a.len() as int) {
                    assert(a[s] == b.take(a.len() as int)[s]);
                }
            }
        }
    } else if s == a.len() {
        assert(a =~= a.take(s));
        assert(a == b.take(a.len() as int));
    } else {
        // s == b.len() < a.len()
        if exists|i: int| 0 <= i < a.len() && i < b.len() && a.take(i) == b.take(i) && #[trigger] a[i] < b[i] {
            let i = choose|i: int| 0 <= i < a.len() && i < b.len() && a.take(i) == b.take(i) && #[trigger] a[i] < b[i];
            assert(a.take(s)[i] == a[i] && b.take(s)[i] == b[i]);
        }
    }
}

/// Bundles are listed by name in text order.
pub proof fn lemma_bundle_listing_by_name(m: DbModel, include_archived: bool, r: Seq<Bundle>)
    requires
        is_bundle_listing(m, include_archived, r),
    ensures
        forall|i: int, j: int| 0 <= i < j < r.len() ==> text_le((#[trigger] r[i]).name@, (#[trigger] r[j]).name@),
{
    assert forall|i: int, j: int| 0 <= i < j < r.len() implies text_le((#[trigger] r[i]).name@, (#[trigger] r[j]).name@) by {
        assert(<ByName as ListingOrder<Bundle>>::before(r[i], r[j]));
    }
}

/// The tags of a bundle are listed by name in text order.
pub proof fn lemma_tag_listing_by_name(m: DbModel, bundle_id: Seq<char>, r: Seq<Tag>)
    requires
        is_tag_listing_of_bundle(m, bundle_id, r),
    ensures
        forall|i: int, j: int| 0 <= i < j < r.len() ==> text_le((#[trigger] r[i]).name@, (#[trigger] r[j]).name@),
{
    assert forall|i: int, j: int| 0 <= i < j < r.len() implies text_le((#[trigger] r[i]).name@, (#[trigger] r[j]).name@) by {
        assert(<ByName as ListingOrder<Tag>>::before(r[i], r[j]));
    }
}

/// A bundle's notes are listed pinned first; among notes pinned alike, by
/// position from smallest to largest.
pub proof fn lemma_note_listing_order(m: DbModel, bundle_id: Seq<char>, v: Seq<Note>)
    requires
        is_note_listing(m, bundle_id, v),
    ensures
        forall|i: int, j: int|
            0 <= i < j < v.len() ==> ((#[trigger] v[i]).pinned || !(#[trigger] v[j]).pinned) && (
            v[i].pinned == v[j].pinned ==> v[i].position <= v[j].position),
{
    let rs = rows_of_notes(v);
    assert forall|i: int, j: int| 0 <= i < j < v.len() implies ((#[trigger] v[i]).pinned || !(
    #[trigger] v[j]).pinned) && (v[i].pinned == v[j].pinned ==> v[i].position <= v[j].position) by {
        assert(<PinnedFirstByPosition as ListingOrder<NoteRow>>::before(rs[i], rs[j]));
        assert(rs[i] == row_of_note(v[i]) && rs[j] == row_of_note(v[j]));
    }
}


// ---------- What the listings hold ----------

/// The bundle listing holds bundles of the store only, unarchived ones
/// unless archived ones are asked for, and every such bundle.
pub proof fn lemma_bundle_listing_members(m: DbModel, include_archived: bool, r: Seq<Bundle>)
    requires
        is_bundle_listing(m, include_archived, r),
    ensures
        forall|i: int| 0 <= i < r.len() ==> m.bundles.contains(#[trigger] r[i]) && (include_archived || !r[i].archived),
        forall|k: int| 0 <= k < m.bundles.len() && (include_archived || !(#[trigger] m.bundles[k]).archived)
            ==> r.contains(m.bundles[k]),
{
    lemma_listing_of_filter(m.bundles, bundle_listed(include_archived), r);
    assert forall|k: int| 0 <= k < m.bundles.len() && (include_archived || !(#[trigger] m.bundles[k]).archived)
        implies r.contains(m.bundles[k]) by {
        assert(bundle_listed(include_archived)(m.bundles[k]));
    }
}

/// The tag listing of a bundle holds tags of that bundle only, and every one.
pub proof fn lemma_tag_listing_members(m: DbModel, bundle_id: Seq<char>, r: Seq<Tag>)
    requires
        is_tag_listing_of_bundle(m, bundle_id, r),
    ensures
        forall|i: int| 0 <= i < r.len() ==> m.tags.contains(#[trigger] r[i]) && r[i].bundle_id@ == bundle_id,
        forall|k: int| 0 <= k < m.tags.len() && (#[trigger] m.tags[k]).bundle_id@ == bundle_id ==> r.contains(m.tags[k]),
{
    lemma_listing_of_filter(m.tags, tag_in_bundle(bundle_id), r);
    assert forall|k: int| 0 <= k < m.tags.len() && (#[trigger] m.tags[k]).bundle_id@ == bundle_id
        implies r.contains(m.tags[k]) by {
        assert(tag_in_bundle(bundle_id)(m.tags[k]));
    }
}

/// The tags read with a note are tags assigned to it, and every one of them.
pub proof fn lemma_note_tags_members(m: DbModel, note_id: Seq<char>, r: Seq<Tag>)
    requires
        is_tag_listing_of_note(m, note_id, r),
    ensures
        forall|i: int| 0 <= i < r.len() ==> m.tags.contains(#[trigger] r[i]) && exists|q: int|
            0 <= q < m.note_tags.len() && (#[trigger] m.note_tags[q]).note_id@ == note_id
                && m.note_tags[q].tag_id@ == r[i].id@,
        forall|k: int, q: int|
            0 <= k < m.tags.len() && 0 <= q < m.note_tags.len() && (#[trigger] m.note_tags[q]).note_id@
                == note_id && m.note_tags[q].tag_id@ == (#[trigger] m.tags[k]).id@ ==> r.contains(m.tags[k]),
{
    lemma_listing_of_filter(m.tags, tag_assigned(m.note_tags, note_id), r);
    assert forall|i: int| 0 <= i < r.len() implies m.tags.contains(#[trigger] r[i]) && exists|q: int|
        0 <= q < m.note_tags.len() && (#[trigger] m.note_tags[q]).note_id@ == note_id
            && m.note_tags[q].tag_id@ == r[i].id@ by {
        assert(tag_assigned(m.note_tags, note_id)(r[i]));
        let q = choose|q: int| 0 <= q < m.note_tags.len() && pair_key()(#[trigger] m.note_tags[q]) == (note_id, r[i].id@);
        assert(m.note_tags[q].note_id@ == note_id);
    }
    assert forall|k: int, q: int|
        0 <= k < m.tags.len() && 0 <= q < m.note_tags.len() && (#[trigger] m.note_tags[q]).note_id@
            == note_id && m.note_tags[q].tag_id@ == (#[trigger] m.tags[k]).id@ implies r.contains(m.tags[k]) by {
        assert(pair_key()(m.note_tags[q]) == (note_id, m.tags[k].id@));
        assert(tag_assigned(m.note_tags, note_id)(m.tags[k]));
    }
}

/// A bundle's note listing holds readable notes of that bundle only, and
/// every one of them.
pub proof fn lemma_note_listing_members(m: DbModel, bundle_id: Seq<char>, v: Seq<Note>)
    requires
        is_note_listing(m, bundle_id, v),
    ensures
        forall|i: int| 0 <= i < v.len() ==> m.notes.contains(row_of_note(#[trigger] v[i])) && v[i].bundle_id@ == bundle_id,
        forall|k: int|
            0 <= k < m.notes.len() && (#[trigger] m.notes[k]).bundle_id@ == bundle_id && m.notes[k].sync_version is Some
                ==> rows_of_notes(v).contains(m.notes[k]),
{
    let rs = rows_of_notes(v);
    lemma_listing_of_filter(m.notes, readable_in_bundle(bundle_id), rs);
    assert forall|i: int| 0 <= i < v.len() implies m.notes.contains(row_of_note(#[trigger] v[i])) && v[i].bundle_id@ == bundle_id by {
        assert(rs[i] == row_of_note(v[i]));
    }
    assert forall|k: int|
        0 <= k < m.notes.len() && (#[trigger] m.notes[k]).bundle_id@ == bundle_id && m.notes[k].sync_version is Some
            implies rs.contains(m.notes[k]) by {
        assert(readable_in_bundle(bundle_id)(m.notes[k]));
    }
}

/// Search returns notes of the store whose title or content matches the
/// pattern, at most a hundred, latest first (by `updated_at`, in text order).
pub proof fn lemma_search_members_and_order(m: DbModel, pattern: Seq<char>, r: Seq<Note>)
    requires
        is_search_result(m, pattern, r),
    ensures
        r.len() <= 100,
        forall|i: int|
            0 <= i < r.len() ==> m.notes.contains(row_of_note(#[trigger] r[i])) && (like(pattern, r[i].title@)
                || like(pattern, r[i].content@)),
        forall|i: int, j: int|
            0 <= i < j < r.len() ==> text_le((#[trigger] r[j]).updated_at@, (#[trigger] r[i]).updated_at@),
{
    if !crate::like::pattern_too_long(pattern) {
        let s = choose|s: Seq<NoteRow>|
            {
                &&& s.to_multiset() == m.notes.filter(matches_pattern(pattern)).to_multiset()
                &&& crate::order::is_listed_in::<NoteRow, LatestFirst>(s)
                &&& #[trigger] rows_of_notes(r) == s.take(limited(s.len())).filter(readable())
            };
        let head = s.take(limited(s.len()));
        let rs = rows_of_notes(r);
        assert(crate::order::is_listed_in::<NoteRow, LatestFirst>(head)) by {
            assert forall|i: int, j: int| 0 <= i < j < head.len() implies #[trigger] <LatestFirst as ListingOrder<NoteRow>>::before(head[i], head[j]) by {
                assert(head[i] == s[i] && head[j] == s[j]);
            }
        }
        lemma_filter_listed::<NoteRow, LatestFirst>(head, readable());
        head.lemma_filter_len(readable());
        assert(r.len() == rs.len());
        lemma_filter_rows(head, readable());
        lemma_listing_of_filter(m.notes, matches_pattern(pattern), s);
        assert forall|i: int| 0 <= i < r.len() implies m.notes.contains(row_of_note(#[trigger] r[i])) && (like(pattern, r[i].title@)
            || like(pattern, r[i].content@)) by {
            assert(rs[i] == row_of_note(r[i]));
            assert(head.contains(rs[i]));
            let j = choose|j: int| 0 <= j < head.len() && head[j] == rs[i];
            assert(s[j] == rs[i]);
            assert(matches_pattern(pattern)(s[j]));
        }
        assert forall|i: int, j: int| 0 <= i < j < r.len() implies text_le((#[trigger] r[j]).updated_at@, (#[trigger] r[i]).updated_at@) by {
            assert(<LatestFirst as ListingOrder<NoteRow>>::before(rs[i], rs[j]));
            assert(rs[i] == row_of_note(r[i]) && rs[j] == row_of_note(r[j]));
        }
    }
}

// ---------- Deleting ----------

/// Deleting a bundle removes it and keeps every other bundle; no bundle
/// appears that was not there. An assignment stays exactly while its note's
/// bundle is not the one deleted.
pub proof fn lemma_delete_bundle_effect(m: DbModel, id: Seq<char>)
    requires
        model_wf(m),
    ensures
        ({
            let r = spec_delete_bundle(m, id);
            &&& !has_bundle(r.bundles, id)
            &&& forall|k: int| 0 <= k < m.bundles.len() && (#[trigger] m.bundles[k]).id@ != id ==> r.bundles.contains(m.bundles[k])
            &&& forall|k: int| 0 <= k < r.bundles.len() ==> m.bundles.contains(#[trigger] r.bundles[k])
            &&& forall|q: int, k: int|
                0 <= q < m.note_tags.len() && 0 <= k < m.notes.len() && (#[trigger] m.notes[k]).id@
                    == (#[trigger] m.note_tags[q]).note_id@ && m.notes[k].bundle_id@ != id ==> r.note_tags.contains(m.note_tags[q])
            &&& forall|q: int| 0 <= q < r.note_tags.len() ==> m.note_tags.contains(#[trigger] r.note_tags[q])
        }),
{
    let r = spec_delete_bundle(m, id);
    crate::laws::lemma_delete_bundle_cascades(m, id);
    lemma_listing_of_filter(m.bundles, bundle_other_than(id), r.bundles);
    lemma_listing_of_filter(m.note_tags, pair_alive(r.notes, r.tags), r.note_tags);
    assert forall|k: int| 0 <= k < m.bundles.len() && (#[trigger] m.bundles[k]).id@ != id implies r.bundles.contains(m.bundles[k]) by {
        assert(bundle_other_than(id)(m.bundles[k]));
    }
    assert forall|q: int, k: int|
        0 <= q < m.note_tags.len() && 0 <= k < m.notes.len() && (#[trigger] m.notes[k]).id@
            == (#[trigger] m.note_tags[q]).note_id@ && m.notes[k].bundle_id@ != id implies r.note_tags.contains(m.note_tags[q]) by {
        let p = m.note_tags[q];
        assert(has_tag(m.tags, p.tag_id@));
        let j = choose|j: int| 0 <= j < m.tags.len() && tag_key()(#[trigger] m.tags[j]) == p.tag_id@;
        assert(m.notes[k].bundle_id@ == m.tags[j].bundle_id@);
        lemma_filter_keeps_key(m.notes, crate::db::note_outside(id), note_key(), k);
        lemma_filter_keeps_key(m.tags, crate::db::tag_outside(id), tag_key(), j);
        assert(pair_alive(r.notes, r.tags)(p));
    }
}

/// Deleting a note removes it and keeps every other note, with no new one;
/// it removes exactly the assignments of that note. Bundles and tags stay.
pub proof fn lemma_delete_note_effect(m: DbModel, id: Seq<char>)
    requires
        model_wf(m),
    ensures
        ({
            let r = spec_delete_note(m, id);
            &&& !has_note(r.notes, id)
            &&& forall|k: int| 0 <= k < m.notes.len() && (#[trigger] m.notes[k]).id@ != id ==> r.notes.contains(m.notes[k])
            &&& forall|k: int| 0 <= k < r.notes.len() ==> m.notes.contains(#[trigger] r.notes[k])
            &&& forall|q: int| 0 <= q < m.note_tags.len() && (#[trigger] m.note_tags[q]).note_id@ != id ==> r.note_tags.contains(m.note_tags[q])
            &&& forall|q: int| 0 <= q < r.note_tags.len() ==> m.note_tags.contains(#[trigger] r.note_tags[q]) && r.note_tags[q].note_id@ != id
            &&& r.bundles == m.bundles && r.tags == m.tags
        }),
{
    let r = spec_delete_note(m, id);
    crate::laws::lemma_delete_note_unassigns(m, id, Seq::empty());
    lemma_listing_of_filter(m.notes, note_other_than(id), r.notes);
    lemma_listing_of_filter(m.note_tags, pair_alive(r.notes, r.tags), r.note_tags);
    assert forall|k: int| 0 <= k < m.notes.len() && (#[trigger] m.notes[k]).id@ != id implies r.notes.contains(m.notes[k]) by {
        assert(note_other_than(id)(m.notes[k]));
    }
    assert forall|q: int| 0 <= q < m.note_tags.len() && (#[trigger] m.note_tags[q]).note_id@ != id implies r.note_tags.contains(m.note_tags[q]) by {
        let p = m.note_tags[q];
        assert(has_note(m.notes, p.note_id@));
        let k = choose|k: int| 0 <= k < m.notes.len() && note_key()(#[trigger] m.notes[k]) == p.note_id@;
        lemma_filter_keeps_key(m.notes, note_other_than(id), note_key(), k);
        assert(has_tag(m.tags, p.tag_id@));
        assert(pair_alive(r.notes, r.tags)(p));
    }
    assert forall|q: int| 0 <= q < r.note_tags.len() implies m.note_tags.contains(#[trigger] r.note_tags[q]) && r.note_tags[q].note_id@ != id by {
        assert(pair_alive(r.notes, r.tags)(r.note_tags[q]));
        if r.note_tags[q].note_id@ == id {
            assert(has_note(r.notes, id));
        }
    }
}

/// Deleting a tag removes it and keeps every other tag, with no new one; it
/// removes exactly the assignments of that tag. Bundles and notes stay.
pub proof fn lemma_delete_tag_effect(m: DbModel, id: Seq<char>)
    requires
        model_wf(m),
    ensures
        ({
            let r = spec_delete_tag(m, id);
            &&& !has_tag(r.tags, id)
            &&& forall|k: int| 0 <= k < m.tags.len() && (#[trigger] m.tags[k]).id@ != id ==> r.tags.contains(m.tags[k])
            &&& forall|k: int| 0 <= k < r.tags.len() ==> m.tags.contains(#[trigger] r.tags[k])
            &&& forall|q: int| 0 <= q < m.note_tags.len() && (#[trigger] m.note_tags[q]).tag_id@ != id ==> r.note_tags.contains(m.note_tags[q])
            &&& forall|q: int| 0 <= q < r.note_tags.len() ==> m.note_tags.contains(#[trigger] r.note_tags[q]) && r.note_tags[q].tag_id@ != id
            &&& r.bundles == m.bundles && r.notes == m.notes
        }),
{
    let r = spec_delete_tag(m, id);
    lemma_listing_of_filter(m.tags, tag_other_than(id), r.tags);
    lemma_listing_of_filter(m.note_tags, pair_alive(r.notes, r.tags), r.note_tags);
    if has_tag(r.tags, id) {
        let k = choose|k: int| 0 <= k < r.tags.len() && tag_key()(#[trigger] r.tags[k]) == id;
        assert(tag_other_than(id)(r.tags[k]));
    }
    assert forall|k: int| 0 <= k < m.tags.len() && (#[trigger] m.tags[k]).id@ != id implies r.tags.contains(m.tags[k]) by {
        assert(tag_other_than(id)(m.tags[k]));
    }
    assert forall|q: int| 0 <= q < m.note_tags.len() && (#[trigger] m.note_tags[q]).tag_id@ != id implies r.note_tags.contains(m.note_tags[q]) by {
        let p = m.note_tags[q];
        assert(has_note(m.notes, p.note_id@));
        assert(has_tag(m.tags, p.tag_id@));
        let k = choose|k: int| 0 <= k < m.tags.len() && tag_key()(#[trigger] m.tags[k]) == p.tag_id@;
        lemma_filter_keeps_key(m.tags, tag_other_than(id), tag_key(), k);
        assert(pair_alive(r.notes, r.tags)(p));
    }
    assert forall|q: int| 0 <= q < r.note_tags.len() implies m.note_tags.contains(#[trigger] r.note_tags[q]) && r.note_tags[q].tag_id@ != id by {
        assert(pair_alive(r.notes, r.tags)(r.note_tags[q]));
        if r.note_tags[q].tag_id@ == id {
            assert(has_tag(r.tags, id));
        }
    }
}


// ---------- Reading notes ----------

/// A note read by id carries the fields of the stored row with that id:
/// bundle, title, content, pin, position, times and sync version.
pub proof fn lemma_note_read_fields(m: DbModel, id: Seq<char>, n: Note)
    requires
        is_note_read(m, id, Ok(n)),
    ensures
        exists|k: int|
            0 <= k < m.notes.len() && (#[trigger] m.notes[k]).id@ == id && {
                let row = m.notes[k];
                &&& n.id == row.id && n.bundle_id == row.bundle_id
                &&& n.title == row.title && n.content == row.content
                &&& n.pinned == row.pinned && n.position == row.position
                &&& n.created_at == row.created_at && n.updated_at == row.updated_at
                &&& row.sync_version == Some(n.sync_version)
            },
{
}

/// The tags read with a note are listed by name in text order.
pub proof fn lemma_note_tags_by_name(m: DbModel, note_id: Seq<char>, r: Seq<Tag>)
    requires
        is_tag_listing_of_note(m, note_id, r),
    ensures
        forall|i: int, j: int| 0 <= i < j < r.len() ==> text_le((#[trigger] r[i]).name@, (#[trigger] r[j]).name@),
{
    assert forall|i: int, j: int| 0 <= i < j < r.len() implies text_le((#[trigger] r[i]).name@, (#[trigger] r[j]).name@) by {
        assert(<ByName as ListingOrder<Tag>>::before(r[i], r[j]));
    }
}

/// `sync_version + 1` adds one while the result fits in an `i64`; past that
/// the value is no longer an integer, and stays so.
pub proof fn lemma_bumped_meaning(x: i64)
    ensures
        x < i64::MAX ==> bumped(Some(x)) == Some((x + 1) as i64),
        x == i64::MAX ==> bumped(Some(x)) is None,
        bumped(None) is None,
{
}

} // verus!
