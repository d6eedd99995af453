use vstd::prelude::*;
use crate::models::{Bundle, Note, NoteUpdate, Tag};
use crate::order::ListingOrder;
use crate::db::{
    DbModel, NoteRow, model_wf, has_bundle, has_note, has_pair, bumped,
    spec_insert_bundle, spec_insert_tag, spec_insert_note, spec_next_position, max_position, spec_set_bundle_archived, spec_delete_bundle,
    spec_delete_note, spec_assign, spec_unassign, pair_key, note_outside, tag_outside,
    bundle_other_than, pair_alive, note_other_than, pair_other_than,
};
use crate::table::{lemma_filter_rows, lemma_filter_keeps, lemma_filter_count, lemma_same_rows, lemma_listing_keys_unique, lemma_filter_keys_unique};
use crate::query::{
    is_note_read, is_note_of_row, tag_assigned, bundle_listed, is_bundle_listing,
    is_tag_listing_of_bundle, tag_in_bundle, is_search_result, rows_of_notes, readable,
    is_note_listing, readable_in_bundle, PinnedFirstByPosition, all_tagged,
    matches_pattern, limited, row_of_note, SEARCH_LIMIT,
};
use crate::commands::{is_note_created, new_note_row, spec_update_note};
use crate::like::{search_pattern, is_plain_query, contains_folded, upto_nul, lemma_search_pattern_is_substring};

verus! {

broadcast use vstd::seq_lib::group_to_multiset_ensures;

proof fn lemma_filter_none<A>(s: Seq<A>, pred: spec_fn(A) -> bool)
    requires
        forall|i: int| 0 <= i < s.len() ==> !pred(#[trigger] s[i]),
    ensures
        s.filter(pred).len() == 0,
{
    lemma_filter_rows(s, pred);
    if s.filter(pred).len() > 0 {
        let x = s.filter(pred)[0];
        assert(pred(x));
        assert(s.contains(x));
    }
}

proof fn lemma_filter_all<A>(s: Seq<A>, pred: spec_fn(A) -> bool)
    requires
        forall|i: int| 0 <= i < s.len() ==> pred(#[trigger] s[i]),
    ensures
        s.filter(pred) == s,
    decreases s.len(),
{
    reveal(Seq::filter);
    if s.len() > 0 {
        lemma_filter_all(s.drop_last(), pred);
        assert(s.drop_last().push(s.last()) =~= s);
    }
}

/// The largest position of a bundle is at least every position in it.
proof fn lemma_max_position_bounds(ns: Seq<NoteRow>, bundle_id: Seq<char>)
    ensures
        forall|i: int|
            0 <= i < ns.len() && (#[trigger] ns[i]).bundle_id@ == bundle_id ==> (max_position(
                ns,
                bundle_id,
            ) matches Some(p) && ns[i].position <= p),
    decreases ns.len(),
{
    if ns.len() > 0 {
        lemma_max_position_bounds(ns.drop_last(), bundle_id);
        assert forall|i: int|
            0 <= i < ns.len() && (#[trigger] ns[i]).bundle_id@ == bundle_id implies (max_position(
            ns,
            bundle_id,
        ) matches Some(p) && ns[i].position <= p) by {
            if i < ns.len() - 1 {
                assert(ns.drop_last()[i] == ns[i]);
            }
        }
    }
}

/// The largest position of a bundle is at least every position in it.
pub proof fn lemma_max_position_bounds_pub(ns: Seq<NoteRow>, bundle_id: Seq<char>)
    ensures
        forall|i: int|
            0 <= i < ns.len() && (#[trigger] ns[i]).bundle_id@ == bundle_id ==> (max_position(
                ns,
                bundle_id,
            ) matches Some(p) && ns[i].position <= p),
{
    lemma_max_position_bounds(ns, bundle_id);
}

/// A bundle without notes has no largest position.
pub proof fn lemma_max_position_none_pub(ns: Seq<NoteRow>, bundle_id: Seq<char>)
    ensures
        (forall|i: int| 0 <= i < ns.len() ==> (#[trigger] ns[i]).bundle_id@ != bundle_id)
            ==> max_position(ns, bundle_id) is None,
{
    lemma_max_position_none(ns, bundle_id);
}

/// A new note goes after every note of its bundle: the next position is
/// greater than every position in the bundle, and 0 in an empty bundle.
pub proof fn lemma_next_position_is_last(m: DbModel, bundle_id: Seq<char>)
    ensures
        spec_next_position(m, bundle_id) matches Ok(p) ==> forall|i: int|
            0 <= i < m.notes.len() && (#[trigger] m.notes[i]).bundle_id@ == bundle_id
                ==> m.notes[i].position < p,
        (forall|i: int| 0 <= i < m.notes.len() ==> (#[trigger] m.notes[i]).bundle_id@ != bundle_id)
            ==> spec_next_position(m, bundle_id) == Ok::<i64, crate::db::DbError>(0),
{
    lemma_max_position_bounds(m.notes, bundle_id);
    lemma_max_position_none(m.notes, bundle_id);
}

proof fn lemma_max_position_none(ns: Seq<NoteRow>, bundle_id: Seq<char>)
    ensures
        (forall|i: int| 0 <= i < ns.len() ==> (#[trigger] ns[i]).bundle_id@ != bundle_id)
            ==> max_position(ns, bundle_id) is None,
    decreases ns.len(),
{
    if ns.len() > 0 {
        lemma_max_position_none(ns.drop_last(), bundle_id);
        if forall|i: int| 0 <= i < ns.len() ==> (#[trigger] ns[i]).bundle_id@ != bundle_id {
            assert forall|i: int| 0 <= i < ns.drop_last().len() implies (
            #[trigger] ns.drop_last()[i]).bundle_id@ != bundle_id by {
                assert(ns.drop_last()[i] == ns[i]);
            }
            assert(ns[ns.len() - 1].bundle_id@ != bundle_id);
        }
    }
}

/// A note that was just created reads back as it was returned, with no tags.
pub proof fn lemma_created_note_reads_back(
    before: DbModel,
    after: DbModel,
    id: String,
    ts: String,
    payload: crate::models::NewNote,
    n: Note,
)
    requires
        model_wf(before),
        is_note_created(before, after, id, ts, payload, Ok(n)),
    ensures
        is_note_read(after, id@, Ok(n)),
{
    let pos = spec_next_position(before, payload.bundle_id@).unwrap();
    let row = new_note_row(id, ts, payload, pos);
    assert(spec_insert_note(before, row) is Ok);
    let k = before.notes.len() as int;
    assert(after.notes[k] == row);
    assert forall|i: int| 0 <= i < after.tags.len() implies !tag_assigned(after.note_tags, id@)(
        #[trigger] after.tags[i],
    ) by {
        if has_pair(before.note_tags, id@, after.tags[i].id@) {
            let j = choose|j: int|
                0 <= j < before.note_tags.len() && pair_key()(#[trigger] before.note_tags[j]) == (
                    id@,
                    after.tags[i].id@,
                );
            assert(has_note(before.notes, before.note_tags[j].note_id@));
        }
    }
    lemma_filter_none(after.tags, tag_assigned(after.note_tags, id@));
    assert(n.tags@.to_multiset() =~= after.tags.filter(tag_assigned(after.note_tags, id@)).to_multiset());
    assert(is_note_of_row(after, after.notes[k], n));
}

/// Deleting a bundle leaves no trace of it: no bundle with its id, no note or
/// tag in it, no assignment of a note or tag that went; everything else stays.
pub proof fn lemma_delete_bundle_cascades(m: DbModel, id: Seq<char>)
    requires
        model_wf(m),
    ensures
        !has_bundle(spec_delete_bundle(m, id).bundles, id),
        forall|i: int|
            0 <= i < spec_delete_bundle(m, id).notes.len() ==> (#[trigger] spec_delete_bundle(
                m,
                id,
            ).notes[i]).bundle_id@ != id,
        forall|i: int|
            0 <= i < spec_delete_bundle(m, id).tags.len() ==> (#[trigger] spec_delete_bundle(
                m,
                id,
            ).tags[i]).bundle_id@ != id,
        forall|i: int|
            0 <= i < m.notes.len() && (#[trigger] m.notes[i]).bundle_id@ != id ==> spec_delete_bundle(
                m,
                id,
            ).notes.contains(m.notes[i]),
        forall|i: int|
            0 <= i < m.tags.len() && (#[trigger] m.tags[i]).bundle_id@ != id ==> spec_delete_bundle(
                m,
                id,
            ).tags.contains(m.tags[i]),
        model_wf(spec_delete_bundle(m, id)),
{
    let r = spec_delete_bundle(m, id);
    lemma_filter_rows(m.bundles, bundle_other_than(id));
    lemma_filter_rows(m.notes, note_outside(id));
    lemma_filter_rows(m.tags, tag_outside(id));
    if has_bundle(r.bundles, id) {
        let k = choose|k: int| 0 <= k < r.bundles.len() && crate::db::bundle_key()(#[trigger] r.bundles[k]) == id;
        assert(bundle_other_than(id)(r.bundles[k]));
    }
    assert forall|i: int| 0 <= i < r.notes.len() implies (#[trigger] r.notes[i]).bundle_id@ != id by {
        assert(note_outside(id)(r.notes[i]));
    }
    assert forall|i: int| 0 <= i < r.tags.len() implies (#[trigger] r.tags[i]).bundle_id@ != id by {
        assert(tag_outside(id)(r.tags[i]));
    }
    assert forall|i: int| 0 <= i < m.notes.len() && (#[trigger] m.notes[i]).bundle_id@ != id implies r.notes.contains(
        m.notes[i],
    ) by {
        lemma_filter_keeps(m.notes, note_outside(id), i);
    }
    assert forall|i: int| 0 <= i < m.tags.len() && (#[trigger] m.tags[i]).bundle_id@ != id implies r.tags.contains(
        m.tags[i],
    ) by {
        lemma_filter_keeps(m.tags, tag_outside(id), i);
    }
    crate::db::lemma_delete_bundle_wf(m, id);
}

/// Deleting a note removes every assignment of a tag to it.
pub proof fn lemma_delete_note_unassigns(m: DbModel, id: Seq<char>, tag_id: Seq<char>)
    requires
        model_wf(m),
    ensures
        !has_note(spec_delete_note(m, id).notes, id),
        !has_pair(spec_delete_note(m, id).note_tags, id, tag_id),
{
    let r = spec_delete_note(m, id);
    lemma_filter_rows(m.notes, note_other_than(id));
    lemma_filter_rows(m.note_tags, pair_alive(r.notes, r.tags));
    if has_note(r.notes, id) {
        let k = choose|k: int| 0 <= k < r.notes.len() && crate::db::note_key()(#[trigger] r.notes[k]) == id;
        assert(note_other_than(id)(r.notes[k]));
    }
    if has_pair(r.note_tags, id, tag_id) {
        let k = choose|k: int| 0 <= k < r.note_tags.len() && pair_key()(#[trigger] r.note_tags[k]) == (id, tag_id);
        assert(pair_alive(r.notes, r.tags)(r.note_tags[k]));
    }
}

/// Assigning a tag twice is the same as assigning it once.
pub proof fn lemma_assign_idempotent(m: DbModel, note_id: String, tag_id: String)
    requires
        model_wf(m),
        spec_assign(m, note_id, tag_id) is Ok,
    ensures
        spec_assign(spec_assign(m, note_id, tag_id).unwrap(), note_id, tag_id) == spec_assign(
            m,
            note_id,
            tag_id,
        ),
{
    let m1 = spec_assign(m, note_id, tag_id).unwrap();
    if !has_pair(m.note_tags, note_id@, tag_id@) {
        let k = m.note_tags.len() as int;
        assert(pair_key()(m1.note_tags[k]) == (note_id@, tag_id@));
        assert(has_pair(m1.note_tags, note_id@, tag_id@));
    }
}

/// An assigned tag is among the note's tags.
pub proof fn lemma_assigned_tag_is_listed(m: DbModel, note_id: String, tag_id: String, k: int)
    requires
        model_wf(m),
        spec_assign(m, note_id, tag_id) is Ok,
        0 <= k < m.tags.len(),
        m.tags[k].id@ == tag_id@,
    ensures
        spec_assign(m, note_id, tag_id).unwrap().tags.filter(
            tag_assigned(spec_assign(m, note_id, tag_id).unwrap().note_tags, note_id@),
        ).contains(m.tags[k]),
{
    let m1 = spec_assign(m, note_id, tag_id).unwrap();
    if !has_pair(m.note_tags, note_id@, tag_id@) {
        let j = m.note_tags.len() as int;
        assert(pair_key()(m1.note_tags[j]) == (note_id@, tag_id@));
    }
    assert(has_pair(m1.note_tags, note_id@, tag_id@));
    lemma_filter_keeps(m1.tags, tag_assigned(m1.note_tags, note_id@), k);
}

/// Removing a tag that was just assigned gives back the store as it was.
pub proof fn lemma_remove_undoes_assign(m: DbModel, note_id: String, tag_id: String)
    requires
        model_wf(m),
        spec_assign(m, note_id, tag_id) is Ok,
        !has_pair(m.note_tags, note_id@, tag_id@),
    ensures
        spec_unassign(spec_assign(m, note_id, tag_id).unwrap(), note_id@, tag_id@) == m,
{
    let m1 = spec_assign(m, note_id, tag_id).unwrap();
    let pred = pair_other_than(note_id@, tag_id@);
    assert forall|i: int| 0 <= i < m.note_tags.len() implies pred(#[trigger] m.note_tags[i]) by {
        if !pred(m.note_tags[i]) {
            assert(pair_key()(m.note_tags[i]) == (note_id@, tag_id@));
        }
    }
    lemma_filter_all(m.note_tags, pred);
    reveal(Seq::filter);
    assert(m1.note_tags.drop_last() =~= m.note_tags);
    assert(spec_unassign(m1, note_id@, tag_id@).note_tags =~= m.note_tags);
    assert(spec_unassign(m1, note_id@, tag_id@) =~= m);
}

/// Archiving a bundle hides it from the listing of unarchived bundles.
pub proof fn lemma_archived_bundle_hidden(m: DbModel, id: Seq<char>, ts: String, i: int)
    requires
        0 <= i < spec_set_bundle_archived(m, id, true, ts).bundles.filter(bundle_listed(false)).len(),
    ensures
        spec_set_bundle_archived(m, id, true, ts).bundles.filter(bundle_listed(false))[i].id@ != id,
{
    let bs = spec_set_bundle_archived(m, id, true, ts).bundles;
    lemma_filter_rows(bs, bundle_listed(false));
    let b = bs.filter(bundle_listed(false))[i];
    let j = choose|j: int| 0 <= j < bs.len() && bs[j] == b;
    assert(bs[j] == crate::db::archived_as(id, true, ts)(m.bundles[j]));
}

/// An update with no fields changes nothing.
pub proof fn lemma_empty_update_changes_nothing(m: DbModel, id: Seq<char>, ts: String)
    ensures
        spec_update_note(
            m,
            id,
            NoteUpdate { title: None, content: None, pinned: None, position: None },
            ts,
        ) == m,
{
}

/// What an update does to the note: each given field takes its new value,
/// the note is stamped with `ts` when any field was given, `sync_version`
/// goes up by one for each of title and content given (while it stays an
/// integer), and every other note stays as it was.
pub proof fn lemma_update_note_effect(m: DbModel, id: Seq<char>, u: NoteUpdate, ts: String, k: int)
    requires
        0 <= k < m.notes.len(),
    ensures
        ({
            let n = m.notes[k];
            let r = spec_update_note(m, id, u, ts);
            &&& r.notes.len() == m.notes.len()
            &&& r.bundles == m.bundles && r.tags == m.tags && r.note_tags == m.note_tags
            &&& n.id@ != id ==> r.notes[k] == n
            &&& n.id@ == id ==> {
                &&& r.notes[k].id == n.id && r.notes[k].bundle_id == n.bundle_id
                &&& r.notes[k].created_at == n.created_at
                &&& r.notes[k].title == (match u.title { Some(t) => t, None => n.title })
                &&& r.notes[k].content == (match u.content { Some(c) => c, None => n.content })
                &&& r.notes[k].pinned == (match u.pinned { Some(p) => p, None => n.pinned })
                &&& r.notes[k].position == (match u.position { Some(p) => p, None => n.position })
                &&& r.notes[k].updated_at == (if u.title is Some || u.content is Some || u.pinned is Some
                    || u.position is Some { ts } else { n.updated_at })
                &&& r.notes[k].sync_version == (match (u.title, u.content) {
                    (Some(_), Some(_)) => bumped(bumped(n.sync_version)),
                    (Some(_), None) => bumped(n.sync_version),
                    (None, Some(_)) => bumped(n.sync_version),
                    (None, None) => n.sync_version,
                })
            }
        }),
{
}


/// A bundle that was just created is in the listing of all bundles, and in
/// that of the unarchived ones unless it is archived.
pub proof fn lemma_created_bundle_is_listed(m: DbModel, b: Bundle, include_archived: bool, r: Seq<Bundle>)
    requires
        spec_insert_bundle(m, b) is Ok,
        include_archived || !b.archived,
        is_bundle_listing(spec_insert_bundle(m, b).unwrap(), include_archived, r),
    ensures
        r.contains(b),
{
    let bs = spec_insert_bundle(m, b).unwrap().bundles;
    let k = bs.len() - 1;
    assert(bs[k] == b);
    lemma_filter_keeps(bs, bundle_listed(include_archived), k);
    assert(r.to_multiset().count(b) > 0);
}

/// A tag that was just created is in the listing of its bundle's tags.
pub proof fn lemma_created_tag_is_listed(m: DbModel, t: Tag, r: Seq<Tag>)
    requires
        spec_insert_tag(m, t) is Ok,
        is_tag_listing_of_bundle(spec_insert_tag(m, t).unwrap(), t.bundle_id@, r),
    ensures
        r.contains(t),
{
    let ts = spec_insert_tag(m, t).unwrap().tags;
    let k = ts.len() - 1;
    assert(ts[k] == t);
    lemma_filter_keeps(ts, tag_in_bundle(t.bundle_id@), k);
    assert(r.to_multiset().count(t) > 0);
}


/// A search for a plain query returns at most a hundred notes, each with the
/// query in its title or its content, before the first NUL of that text
/// (ASCII letters compared regardless of case).
pub proof fn lemma_search_results_contain_query(m: DbModel, q: Seq<char>, r: Seq<Note>)
    requires
        is_plain_query(q),
        is_search_result(m, search_pattern(q), r),
    ensures
        r.len() <= SEARCH_LIMIT,
        forall|i: int|
            0 <= i < r.len() ==> contains_folded(upto_nul((#[trigger] r[i]).title@), q)
                || contains_folded(upto_nul(r[i].content@), q),
{
    let p = search_pattern(q);
    if !crate::like::pattern_too_long(p) {
        let s = choose|s: Seq<NoteRow>|
            {
                &&& s.to_multiset() == m.notes.filter(matches_pattern(p)).to_multiset()
                &&& crate::order::is_listed_in::<NoteRow, crate::query::LatestFirst>(s)
                &&& #[trigger] rows_of_notes(r) == s.take(limited(s.len())).filter(readable())
            };
        let head = s.take(limited(s.len()));
        head.lemma_filter_len(readable());
        assert(r.len() == rows_of_notes(r).len());
        lemma_filter_rows(head, readable());
        lemma_filter_rows(m.notes, matches_pattern(p));
        assert forall|i: int| 0 <= i < r.len() implies contains_folded(
            upto_nul((#[trigger] r[i]).title@),
            q,
        ) || contains_folded(upto_nul(r[i].content@), q) by {
            let row = rows_of_notes(r)[i];
            assert(row == row_of_note(r[i]));
            assert(head.contains(row));
            let j = choose|j: int| 0 <= j < head.len() && head[j] == row;
            assert(s[j] == row);
            assert(s.to_multiset().count(row) > 0);
            assert(m.notes.filter(matches_pattern(p)).contains(row));
            let k = choose|k: int|
                0 <= k < m.notes.filter(matches_pattern(p)).len()
                    && m.notes.filter(matches_pattern(p))[k] == row;
            assert(matches_pattern(p)(row));
            lemma_search_pattern_is_substring(q, row.title@);
            lemma_search_pattern_is_substring(q, row.content@);
        }
    }
}


/// Two reads of the same note in the same store agree: the same fields, and
/// the same tags (in an order that may differ only among equal names).
pub proof fn lemma_reads_agree(m: DbModel, id: Seq<char>, a: Note, b: Note)
    requires
        model_wf(m),
        is_note_read(m, id, Ok(a)),
        is_note_read(m, id, Ok(b)),
    ensures
        row_of_note(a) == row_of_note(b),
        a.tags@.to_multiset() == b.tags@.to_multiset(),
{
    let i = choose|i: int| 0 <= i < m.notes.len() && (#[trigger] m.notes[i]).id@ == id && is_note_of_row(m, m.notes[i], a);
    let j = choose|j: int| 0 <= j < m.notes.len() && (#[trigger] m.notes[j]).id@ == id && is_note_of_row(m, m.notes[j], b);
    if i < j {
        assert(crate::db::note_key()(m.notes[i]) != crate::db::note_key()(m.notes[j]));
    } else if j < i {
        assert(crate::db::note_key()(m.notes[j]) != crate::db::note_key()(m.notes[i]));
    }
}

/// Repeating an update that sets neither title nor content gives what one
/// such update at the later time gives: the fields are already set, only
/// the stamp moves (when pinned or position is given).
pub proof fn lemma_repeated_layout_update(m: DbModel, id: Seq<char>, u: NoteUpdate, ts1: String, ts2: String)
    requires
        u.title is None,
        u.content is None,
    ensures
        spec_update_note(spec_update_note(m, id, u, ts1), id, u, ts2) == spec_update_note(m, id, u, ts2),
{
    let m1 = spec_update_note(m, id, u, ts1);
    let a = spec_update_note(m1, id, u, ts2);
    let b = spec_update_note(m, id, u, ts2);
    assert forall|k: int| 0 <= k < m.notes.len() implies a.notes[k] == b.notes[k] by {
        lemma_update_note_effect(m, id, u, ts1, k);
        lemma_update_note_effect(m1, id, u, ts2, k);
        lemma_update_note_effect(m, id, u, ts2, k);
    }
    lemma_update_note_effect_len(m, id, u, ts1);
    lemma_update_note_effect_len(m1, id, u, ts2);
    lemma_update_note_effect_len(m, id, u, ts2);
    assert(a.notes =~= b.notes);
    assert(a =~= b);
}

proof fn lemma_update_note_effect_len(m: DbModel, id: Seq<char>, u: NoteUpdate, ts: String)
    ensures
        spec_update_note(m, id, u, ts).notes.len() == m.notes.len(),
        spec_update_note(m, id, u, ts).bundles == m.bundles,
        spec_update_note(m, id, u, ts).tags == m.tags,
        spec_update_note(m, id, u, ts).note_tags == m.note_tags,
{
}

/// Reading a note back after repeating an update that sets neither title
/// nor content gives the note of the first read, stamped with the second
/// time when pinned or position was given, with the same tags.
pub proof fn lemma_repeated_layout_update_reads(
    m: DbModel,
    id: Seq<char>,
    u: NoteUpdate,
    ts1: String,
    ts2: String,
    r1: Note,
    r2: Note,
)
    requires
        model_wf(m),
        u.title is None,
        u.content is None,
        is_note_read(spec_update_note(m, id, u, ts1), id, Ok(r1)),
        is_note_read(spec_update_note(spec_update_note(m, id, u, ts1), id, u, ts2), id, Ok(r2)),
    ensures
        row_of_note(r2) == (NoteRow {
            updated_at: if u.pinned is Some || u.position is Some { ts2 } else { r1.updated_at },
            ..row_of_note(r1)
        }),
        r2.tags@.to_multiset() == r1.tags@.to_multiset(),
{
    let m1 = spec_update_note(m, id, u, ts1);
    let m2 = spec_update_note(m1, id, u, ts2);
    lemma_update_note_effect_len(m, id, u, ts1);
    lemma_update_note_effect_len(m1, id, u, ts2);
    let i = choose|i: int| 0 <= i < m1.notes.len() && (#[trigger] m1.notes[i]).id@ == id && is_note_of_row(m1, m1.notes[i], r1);
    let j = choose|j: int| 0 <= j < m2.notes.len() && (#[trigger] m2.notes[j]).id@ == id && is_note_of_row(m2, m2.notes[j], r2);
    lemma_update_note_effect(m, id, u, ts1, i);
    lemma_update_note_effect(m, id, u, ts1, j);
    lemma_update_note_effect(m1, id, u, ts2, j);
    if i != j {
        assert(m.notes[i].id@ == id && m.notes[j].id@ == id);
        if i < j {
            assert(crate::db::note_key()(m.notes[i]) != crate::db::note_key()(m.notes[j]));
        } else {
            assert(crate::db::note_key()(m.notes[j]) != crate::db::note_key()(m.notes[i]));
        }
    }
    assert(m2.tags == m1.tags && m2.note_tags == m1.note_tags);
}


/// The listing of unarchived bundles holds exactly the unarchived bundles of
/// the listing of all bundles (their order may differ among equal names).
pub proof fn lemma_unarchived_listing_is_filter(m: DbModel, all: Seq<Bundle>, live: Seq<Bundle>)
    requires
        is_bundle_listing(m, true, all),
        is_bundle_listing(m, false, live),
    ensures
        live.to_multiset() == all.filter(bundle_listed(false)).to_multiset(),
{
    assert forall|i: int| 0 <= i < m.bundles.len() implies bundle_listed(true)(#[trigger] m.bundles[i]) by {}
    lemma_filter_all(m.bundles, bundle_listed(true));
    assert forall|x: Bundle| live.to_multiset().count(x) == all.filter(bundle_listed(false)).to_multiset().count(x) by {
        lemma_filter_count(m.bundles, bundle_listed(false), x);
        lemma_filter_count(all, bundle_listed(false), x);
    }
    assert(live.to_multiset() =~= all.filter(bundle_listed(false)).to_multiset());
}

/// After a bundle is archived or unarchived, the listing of all bundles
/// holds it exactly once, marked as set; the listing of unarchived bundles
/// holds it exactly when it was unarchived.
pub proof fn lemma_archive_then_list(
    m: DbModel,
    id: Seq<char>,
    archived: bool,
    ts: String,
    all: Seq<Bundle>,
    live: Seq<Bundle>,
)
    requires
        model_wf(m),
        has_bundle(m.bundles, id),
        is_bundle_listing(spec_set_bundle_archived(m, id, archived, ts), true, all),
        is_bundle_listing(spec_set_bundle_archived(m, id, archived, ts), false, live),
    ensures
        exists|i: int| 0 <= i < all.len() && (#[trigger] all[i]).id@ == id,
        forall|i: int| 0 <= i < all.len() && (#[trigger] all[i]).id@ == id ==> all[i].archived == archived,
        forall|i: int, j: int|
            0 <= i < all.len() && 0 <= j < all.len() && (#[trigger] all[i]).id@ == id && (
            #[trigger] all[j]).id@ == id ==> i == j,
        (exists|i: int| 0 <= i < live.len() && (#[trigger] live[i]).id@ == id) <==> !archived,
{
    let m1 = spec_set_bundle_archived(m, id, archived, ts);
    let bs = m1.bundles;
    crate::db::lemma_rewrite_bundles_wf(m, bs);
    let k0 = choose|k: int| 0 <= k < m.bundles.len() && crate::db::bundle_key()(#[trigger] m.bundles[k]) == id;
    assert(bs[k0].id@ == id && bs[k0].archived == archived);
    assert forall|i: int| 0 <= i < bs.len() implies bundle_listed(true)(#[trigger] bs[i]) by {}
    lemma_filter_all(bs, bundle_listed(true));
    // The only row of the table with the id is the one at k0.
    assert forall|k: int| 0 <= k < bs.len() && (#[trigger] bs[k]).id@ == id implies k == k0 by {
        if k < k0 {
            assert(crate::db::bundle_key()(bs[k]) != crate::db::bundle_key()(bs[k0]));
        } else if k0 < k {
            assert(crate::db::bundle_key()(bs[k0]) != crate::db::bundle_key()(bs[k]));
        }
    }
    lemma_same_rows(bs, all, bs[k0]);
    let i0 = choose|i: int| 0 <= i < all.len() && all[i] == bs[k0];
    assert(all[i0].id@ == id);
    assert forall|i: int| 0 <= i < all.len() && (#[trigger] all[i]).id@ == id implies all[i].archived == archived by {
        lemma_same_rows(bs, all, all[i]);
        let k = choose|k: int| 0 <= k < bs.len() && bs[k] == all[i];
        assert(bs[k].id@ == id);
    }
    lemma_listing_keys_unique(bs, all, crate::db::bundle_key());
    assert forall|i: int, j: int|
        0 <= i < all.len() && 0 <= j < all.len() && (#[trigger] all[i]).id@ == id && (
        #[trigger] all[j]).id@ == id implies i == j by {
        if i < j {
            assert(crate::db::bundle_key()(all[i]) != crate::db::bundle_key()(all[j]));
        } else if j < i {
            assert(crate::db::bundle_key()(all[j]) != crate::db::bundle_key()(all[i]));
        }
    }
    let f = bs.filter(bundle_listed(false));
    lemma_filter_rows(bs, bundle_listed(false));
    if !archived {
        lemma_filter_keeps(bs, bundle_listed(false), k0);
        lemma_same_rows(f, live, bs[k0]);
        let i = choose|i: int| 0 <= i < live.len() && live[i] == bs[k0];
        assert(live[i].id@ == id);
    } else {
        if exists|i: int| 0 <= i < live.len() && (#[trigger] live[i]).id@ == id {
            let i = choose|i: int| 0 <= i < live.len() && (#[trigger] live[i]).id@ == id;
            lemma_same_rows(f, live, live[i]);
            let j = choose|j: int| 0 <= j < f.len() && f[j] == live[i];
            assert(bundle_listed(false)(f[j]));
            assert(bs.contains(f[j]));
            let k = choose|k: int| 0 <= k < bs.len() && bs[k] == f[j];
            assert(bs[k].id@ == id);
        }
    }
}

/// A note that was just created is the last in its bundle's listing: it is
/// unpinned and has the largest position there; it has no tags.
pub proof fn lemma_created_note_listed_last(
    before: DbModel,
    after: DbModel,
    id: String,
    ts: String,
    payload: crate::models::NewNote,
    n: Note,
    v: Seq<Note>,
)
    requires
        model_wf(before),
        is_note_created(before, after, id, ts, payload, Ok(n)),
        is_note_listing(after, payload.bundle_id@, v),
    ensures
        v.len() > 0,
        row_of_note(v.last()) == row_of_note(n),
        v.last().tags@.len() == 0,
{
    let bid = payload.bundle_id@;
    let pos = spec_next_position(before, bid).unwrap();
    let row = new_note_row(id, ts, payload, pos);
    let m1 = spec_insert_note(before, row).unwrap();
    assert(m1 == after);
    let last = before.notes.len() as int;
    assert(after.notes[last] == row);
    crate::db::lemma_insert_note_wf(before, row);
    lemma_next_position_is_last(before, bid);
    let f = after.notes.filter(readable_in_bundle(bid));
    let rs = rows_of_notes(v);
    lemma_filter_keeps(after.notes, readable_in_bundle(bid), last);
    lemma_same_rows(f, rs, row);
    let i = choose|i: int| 0 <= i < rs.len() && rs[i] == row;
    assert(v.len() == rs.len());
    lemma_filter_keys_unique(after.notes, readable_in_bundle(bid), crate::db::note_key());
    lemma_listing_keys_unique(f, rs, crate::db::note_key());
    lemma_filter_rows(after.notes, readable_in_bundle(bid));
    if i < rs.len() - 1 {
        let z = rs.len() - 1;
        let x = rs[z];
        assert(<PinnedFirstByPosition as ListingOrder<NoteRow>>::before(rs[i], rs[z]));
        lemma_same_rows(f, rs, x);
        let a = choose|a: int| 0 <= a < f.len() && f[a] == x;
        assert(after.notes.contains(f[a]));
        let j = choose|j: int| 0 <= j < after.notes.len() && after.notes[j] == x;
        assert(readable_in_bundle(bid)(f[a]));
        if j < last {
            assert(after.notes[j] == before.notes[j]);
            assert(before.notes[j].bundle_id@ == bid);
        } else {
            assert(x == row);
            assert(crate::db::note_key()(rs[i]) != crate::db::note_key()(rs[z]));
        }
    }
    assert(rs[rs.len() - 1] == row_of_note(v[v.len() - 1]));
    // The new note has no tags assigned.
    let t = v.last();
    assert(all_tagged(after, v));
    assert(crate::query::is_tag_listing_of_note(after, v[v.len() - 1].id@, v[v.len() - 1].tags@));
    assert forall|k: int| 0 <= k < after.tags.len() implies !tag_assigned(after.note_tags, id@)(
        #[trigger] after.tags[k],
    ) by {
        if has_pair(before.note_tags, id@, after.tags[k].id@) {
            let q = choose|q: int|
                0 <= q < before.note_tags.len() && pair_key()(#[trigger] before.note_tags[q]) == (
                    id@,
                    after.tags[k].id@,
                );
            assert(has_note(before.notes, before.note_tags[q].note_id@));
        }
    }
    lemma_filter_none(after.tags, tag_assigned(after.note_tags, id@));
    assert(t.id@ == id@);
    assert(t.tags@.to_multiset().len() == 0);
}


/// Tags are local to their bundle: assigning a tag to a note of another
/// bundle is refused, and the store stays as it was.
pub proof fn lemma_assign_stays_within_bundle(m: DbModel, note_id: String, tag_id: String, k: int, j: int)
    requires
        model_wf(m),
        0 <= k < m.notes.len(),
        0 <= j < m.tags.len(),
        m.notes[k].id@ == note_id@,
        m.tags[j].id@ == tag_id@,
        m.notes[k].bundle_id@ != m.tags[j].bundle_id@,
    ensures
        spec_assign(m, note_id, tag_id) == Err::<DbModel, crate::db::DbError>(
            crate::db::DbError::TagOfAnotherBundle,
        ),
{
    crate::db::lemma_one_note_one_tag(m, note_id@, tag_id@, k, j);
}

} // verus!
