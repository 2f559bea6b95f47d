//! The note entity: one unit of stored content and its construction and
//! update semantics.

use vstd::prelude::*;
use crate::ext::{now_rfc3339, random_id_string};

verus! {

/// Ghost model of a note: every field as a sequence of characters.
#[verifier::ext_equal]
pub ghost struct NoteView {
    pub id: Seq<char>,
    pub title: Seq<char>,
    pub content: Seq<char>,
    pub created_at: Seq<char>,
    pub updated_at: Seq<char>,
    pub tags: Seq<Seq<char>>,
}

/// One note. The identifier is generated at construction and never changes;
/// `created_at` never changes; `updated_at` is refreshed on every update.
#[derive(Debug, PartialEq, Eq)]
pub struct Note {
    pub id: String,
    pub title: String,
    pub content: String,
    pub created_at: String,
    pub updated_at: String,
    pub tags: Vec<String>,
}

impl View for Note {
    type V = NoteView;

    open spec fn view(&self) -> NoteView {
        NoteView {
            id: self.id@,
            title: self.title@,
            content: self.content@,
            created_at: self.created_at@,
            updated_at: self.updated_at@,
            tags: self.tags.deep_view(),
        }
    }
}

/// The ghost model of a sequence of notes.
pub open spec fn views_of(s: Seq<Note>) -> Seq<NoteView> {
    Seq::new(s.len(), |i: int| s[i]@)
}

impl Clone for Note {
    fn clone(&self) -> (r: Self)
        ensures
            r@ == self@,
    {
        let r = Note {
            id: self.id.clone(),
            title: self.title.clone(),
            content: self.content.clone(),
            created_at: self.created_at.clone(),
            updated_at: self.updated_at.clone(),
            tags: self.tags.clone(),
        };
        proof {
            assert(r.tags.deep_view() =~= self.tags.deep_view());
            assert(r@ =~= self@);
        }
        r
    }
}

impl Note {
    /// Build a fresh note: a newly drawn identifier and equal timestamps.
    pub fn new(title: String, content: String, tags: Vec<String>) -> (r: Note)
        ensures
            r@.title == title@,
            r@.content == content@,
            r@.tags == tags.deep_view(),
            r@.created_at == r@.updated_at,
    {
        let now = now_rfc3339();
        Note {
            id: random_id_string(),
            title,
            content,
            created_at: now.clone(),
            updated_at: now,
            tags,
        }
    }

    /// Replace each provided field; fields left absent are untouched. The
    /// update timestamp is refreshed whether or not any field was provided;
    /// the identifier and the creation timestamp never change.
    pub fn update(
        &mut self,
        title: Option<String>,
        content: Option<String>,
        tags: Option<Vec<String>>,
    )
        ensures
            final(self)@.id == old(self)@.id,
            final(self)@.created_at == old(self)@.created_at,
            final(self)@.title == (match title {
                Some(t) => t@,
                None => old(self)@.title,
            }),
            final(self)@.content == (match content {
                Some(c) => c@,
                None => old(self)@.content,
            }),
            final(self)@.tags == (match tags {
                Some(ts) => ts.deep_view(),
                None => old(self)@.tags,
            }),
    {
        if let Some(t) = title {
            self.title = t;
        }
        if let Some(c) = content {
            self.content = c;
        }
        if let Some(ts) = tags {
            self.tags = ts;
        }
        self.updated_at = now_rfc3339();
    }
}

} // verus!
