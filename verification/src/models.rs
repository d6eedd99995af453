use vstd::prelude::*;

verus! {

/// A "Bundle" is the top-level container for notes, equivalent to a folder.
#[derive(Debug, Clone, PartialEq, Eq)]
pub struct Bundle {
    pub id: String,
    pub name: String,
    pub color: Option<String>,
    pub archived: bool,
    pub created_at: String,
    pub updated_at: String,
}

/// A tag, scoped to a single bundle.
#[derive(Debug, Clone, PartialEq, Eq)]
pub struct Tag {
    pub id: String,
    pub bundle_id: String,
    pub name: String,
    pub color: Option<String>,
}

/// A single note that lives inside a Bundle.
#[derive(Debug, Clone, PartialEq, Eq)]
pub struct Note {
    pub id: String,
    pub bundle_id: String,
    pub title: String,
    pub content: String,
    pub pinned: bool,
    pub position: i64,
    pub created_at: String,
    pub updated_at: String,
    pub sync_version: i64,
    /// Populated on read so the caller doesn't need a second round trip.
    pub tags: Vec<Tag>,
}

/// Payload used when creating a note: the caller doesn't know the id or
/// the timestamps yet, those are generated by the store.
#[derive(Debug, Clone, PartialEq, Eq)]
pub struct NewNote {
    pub bundle_id: String,
    pub title: String,
    pub content: String,
}

/// Payload used when updating an existing note. All fields are optional so
/// that the caller can send only what changed.
#[derive(Debug, Clone, PartialEq, Eq)]
pub struct NoteUpdate {
    pub title: Option<String>,
    pub content: Option<String>,
    pub pinned: Option<bool>,
    pub position: Option<i64>,
}

/// A copy of an optional string, equal to it.
pub fn copy_opt_string(s: &Option<String>) -> (r: Option<String>)
    ensures
        r == *s,
{
    match s {
        Some(x) => Some(x.clone()),
        None => None,
    }
}

impl Tag {
    /// A copy of the tag, field for field.
    pub fn copy(&self) -> (r: Tag)
        ensures
            r == *self,
    {
        Tag {
            id: self.id.clone(),
            bundle_id: self.bundle_id.clone(),
            name: self.name.clone(),
            color: copy_opt_string(&self.color),
        }
    }
}

} // verus!
