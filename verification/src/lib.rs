//! A small note manager built around a reference-integrity engine: notes may
//! embed references to other notes (`[[id]]`), which are validated when a note
//! is written, expanded inline when it is read, and protect the referenced
//! note from deletion.
use vstd::prelude::*;

pub mod expand;
pub mod file_format;
pub mod memory;
pub mod menu;
pub mod refs;
pub mod service;
pub mod text;

verus! {

/// A convenient alias: every fallible operation fails with a `NoteError`.
pub type Result<T> = core::result::Result<T, NoteError>;

/// A stored note. The `id` is unique among all stored notes; `owner` is the
/// user who created the note and never changes; `content` may contain
/// reference tokens of the form `[[id]]`.
#[derive(Debug, Clone, PartialEq, Eq)]
pub struct Note {
    pub id: u16,
    pub owner: String,
    pub name: String,
    pub content: String,
}

/// The projection of a note used for listings and ownership checks: the
/// content is omitted.
#[derive(Debug, Clone, PartialEq, Eq)]
pub struct PartialNote {
    pub id: u16,
    pub owner: String,
    pub name: String,
}

/// The mathematical value of a stored note: its fields as plain sequences.
pub struct NoteView {
    pub id: u16,
    pub owner: Seq<char>,
    pub name: Seq<char>,
    pub content: Seq<char>,
}

/// The mathematical value of a partial note.
pub struct PartialNoteView {
    pub id: u16,
    pub owner: Seq<char>,
    pub name: Seq<char>,
}

impl View for Note {
    type V = NoteView;

    open spec fn view(&self) -> NoteView {
        NoteView { id: self.id, owner: self.owner@, name: self.name@, content: self.content@ }
    }
}

impl View for PartialNote {
    type V = PartialNoteView;

    open spec fn view(&self) -> PartialNoteView {
        PartialNoteView { id: self.id, owner: self.owner@, name: self.name@ }
    }
}

/// The partial projection of a note value.
pub open spec fn partial_view(n: NoteView) -> PartialNoteView {
    PartialNoteView { id: n.id, owner: n.owner, name: n.name }
}

impl Note {
    /// An owned copy of the note, equal to the original.
    pub fn duplicate(&self) -> (r: Note)
        ensures
            r == *self,
    {
        Note {
            id: self.id,
            owner: self.owner.clone(),
            name: self.name.clone(),
            content: self.content.clone(),
        }
    }
}

impl PartialNote {
    /// An owned copy of the partial note, equal to the original.
    pub fn duplicate(&self) -> (r: PartialNote)
        ensures
            r == *self,
    {
        PartialNote { id: self.id, owner: self.owner.clone(), name: self.name.clone() }
    }
}

/// Any error the library reports: a business-rule violation, a storage-medium
/// failure, or a malformed menu choice.
#[derive(Debug, Clone, PartialEq, Eq)]
pub enum NoteError {
    Validation(NoteValidationError),
    Backend(BackendError),
    Menu(MenuError),
}

/// Errors for malformed interactive input. Medium failures carry the
/// underlying error rendered as text.
#[derive(Debug, Clone, PartialEq, Eq)]
pub enum MenuError {
    StdinReadError(String),
    ParseError(String),
    InvalidOption(u8),
    StdoutWriteError(String),
}

/// Business-rule violations: expected, recoverable, and always surfaced with
/// the specific rule that was broken.
#[derive(Debug, Clone, PartialEq, Eq)]
pub enum NoteValidationError {
    NameEmpty,
    ContentEmpty,
    NameTooLarge { max: u8, got: usize },
    ContentTooLarge { max: u16, got: usize },
    NoteCountRateLimit { max: u16 },
    PermissionDenied(u16),
    NoteNotFound(u16),
    NoteIsReferenced(Vec<u16>),
    ReferenceNotFound(u16),
}

/// Storage-medium failures, kept distinct so callers can decide between retry
/// and abort.
#[derive(Debug, Clone, PartialEq, Eq)]
pub enum BackendError {
    DatabaseCreationError,
    TableCreationError,
    DirectoryCreationError,
    FileCreationError,
    FileWriteError,
    FileReadError,
    DirectoryReadError,
    NoteCorrupted,
    Duplicate,
    DatabaseBusy,
    DatabaseCorruptOrIo,
    SqlLogicError,
    Timeout,
    NotADatabase,
    SchemaChanged,
    NoteNotFound(u16),
    NoNotesFound,
    PermissionDenied,
    Other(String),
}

/// Whether `e` reports a storage-medium failure rather than a business-rule
/// violation.
pub open spec fn is_backend_failure(e: NoteError) -> bool {
    e matches NoteError::Backend(_)
}

/// A listing `l` presents exactly the notes of `m`: every entry is the partial
/// projection of a stored note, every stored note appears, and entries come in
/// strictly ascending ID order.
pub open spec fn is_listing(l: Seq<PartialNote>, m: Map<u16, NoteView>) -> bool {
    &&& forall|i: int|
        0 <= i < l.len() ==> m.contains_key((#[trigger] l[i]).id) && l[i]@ == partial_view(
            m[l[i].id],
        )
    &&& forall|id: u16| #[trigger]
        m.contains_key(id) ==> exists|i: int| 0 <= i < l.len() && (#[trigger] l[i]).id == id
    &&& forall|i: int, j: int|
        0 <= i < j < l.len() ==> (#[trigger] l[i]).id < (#[trigger] l[j]).id
}

/// The capability contract every storage backend implements: durable keyed
/// storage of note records, modelled as a finite map from ID to note value.
/// Backends only persist and retrieve records; all business rules live in the
/// note service.
pub trait NoteBackend: Sized {
    /// The notes the backend currently stores, as a map from ID to value. An
    /// implementation the verifier does not see keeps the default, of which
    /// nothing is known.
    open spec fn notes(&self) -> Map<u16, NoteView> {
        vstd::pervasive::arbitrary()
    }

    /// The backend's internal well-formedness.
    open spec fn inv(&self) -> bool {
        vstd::pervasive::arbitrary()
    }

    /// Persists a new record keyed by `note.id` and returns that ID. Fails
    /// with `Duplicate` if the ID is already present; any failure leaves the
    /// store unchanged.
    fn create(&mut self, note: Note) -> (r: Result<u16>)
        requires
            old(self).inv(),
        ensures
            final(self).inv(),
            match r {
                Ok(id) => id == note.id && !old(self).notes().contains_key(note.id)
                    && final(self).notes() == old(self).notes().insert(note.id, note@),
                Err(e) => final(self).notes() == old(self).notes() && is_backend_failure(e) && (
                old(self).notes().contains_key(note.id) ==> e == NoteError::Backend(
                    BackendError::Duplicate,
                )),
            },
    ;

    /// Fetches the full record stored under `id`. Fails with `NoteNotFound`
    /// if it is absent.
    fn read(&self, id: u16) -> (r: Result<Note>)
        requires
            self.inv(),
        ensures
            match r {
                Ok(n) => self.notes().contains_key(id) && n@ == self.notes()[id],
                Err(e) => is_backend_failure(e) && (!self.notes().contains_key(id) ==> e
                    == NoteError::Backend(BackendError::NoteNotFound(id))),
            },
    ;

    /// Fetches the partial projection of the record stored under `id`. Fails
    /// with `NoteNotFound` if it is absent.
    fn read_partial(&self, id: u16) -> (r: Result<PartialNote>)
        requires
            self.inv(),
        ensures
            match r {
                Ok(p) => self.notes().contains_key(id) && p@ == partial_view(self.notes()[id]),
                Err(e) => is_backend_failure(e) && (!self.notes().contains_key(id) ==> e
                    == NoteError::Backend(BackendError::NoteNotFound(id))),
            },
    ;

    /// Replaces the record stored under `note.id`. Fails with `NoteNotFound`
    /// if it is absent, and never creates a record; any failure leaves the
    /// store unchanged.
    fn update(&mut self, note: Note) -> (r: Result<()>)
        requires
            old(self).inv(),
        ensures
            final(self).inv(),
            match r {
                Ok(u) => old(self).notes().contains_key(note.id)
                    && final(self).notes() == old(self).notes().insert(note.id, note@),
                Err(e) => final(self).notes() == old(self).notes() && is_backend_failure(e) && (
                !old(self).notes().contains_key(note.id) ==> e == NoteError::Backend(
                    BackendError::NoteNotFound(note.id),
                )),
            },
    ;

    /// Removes the record stored under `id`. Fails with `NoteNotFound` if it
    /// is absent; any failure leaves the store unchanged.
    fn delete(&mut self, id: u16) -> (r: Result<()>)
        requires
            old(self).inv(),
        ensures
            final(self).inv(),
            match r {
                Ok(u) => old(self).notes().contains_key(id)
                    && final(self).notes() == old(self).notes().remove(id),
                Err(e) => final(self).notes() == old(self).notes() && is_backend_failure(e) && (
                !old(self).notes().contains_key(id) ==> e == NoteError::Backend(
                    BackendError::NoteNotFound(id),
                )),
            },
    ;

    /// Lists the partial projection of every stored note, in ascending ID
    /// order.
    fn list(&self) -> (r: Result<Vec<PartialNote>>)
        requires
            self.inv(),
        ensures
            match r {
                Ok(l) => is_listing(l@, self.notes()),
                Err(e) => is_backend_failure(e),
            },
    ;
}

} // verus!
