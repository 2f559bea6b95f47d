//! A verified core for a personal note-taking application.
//!
//! The library owns the in-memory collection of notes, enforces its
//! invariants (unique identifiers, consistent timestamps), renders and
//! parses the JSON document in which the collection is persisted, and
//! provides the mutation and query operations shared by the console and
//! HTTP front-ends. File and network I/O stay outside the library.

pub mod api;
pub mod codec;
pub mod ext;
pub mod input;
pub mod note;
pub mod search;
pub mod store;

pub use api::ApiResponse;
pub use note::Note;
pub use note::NoteView;
pub use store::NotesManager;
pub use store::StoreError;
