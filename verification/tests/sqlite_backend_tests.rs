//! The service's business rules run unchanged over a real relational store:
//! a backend backed by an in-memory SQLite database, implementing the same
//! storage contract the verified in-memory backend implements.
use noters::service::NoteService;
use rusqlite::OptionalExtension;
use noters::{BackendError, Note, NoteBackend, NoteError, NoteValidationError, PartialNote, Result};

struct SqliteBackend {
    connection: rusqlite::Connection,
}

impl SqliteBackend {
    fn open_in_memory() -> SqliteBackend {
        let connection = rusqlite::Connection::open_in_memory().expect("open in-memory database");
        connection
            .execute(
                "CREATE TABLE IF NOT EXISTS notes (
                    id      INTEGER PRIMARY KEY,
                    name    TEXT NOT NULL,
                    owner   TEXT NOT NULL,
                    content TEXT NOT NULL
                )",
                [],
            )
            .expect("create notes table");
        SqliteBackend { connection }
    }
}

fn map_sqlite_error(e: rusqlite::Error) -> NoteError {
    match e {
        rusqlite::Error::SqliteFailure(code, _) => match code.code {
            rusqlite::ErrorCode::ConstraintViolation => {
                NoteError::Backend(BackendError::Duplicate)
            }
            rusqlite::ErrorCode::DatabaseBusy => NoteError::Backend(BackendError::Timeout),
            rusqlite::ErrorCode::PermissionDenied => {
                NoteError::Backend(BackendError::PermissionDenied)
            }
            rusqlite::ErrorCode::NotADatabase => NoteError::Backend(BackendError::NotADatabase),
            rusqlite::ErrorCode::SchemaChanged => NoteError::Backend(BackendError::SchemaChanged),
            _ => NoteError::Backend(BackendError::Other(format!("SQLite error: {code:?}"))),
        },
        other => NoteError::Backend(BackendError::Other(other.to_string())),
    }
}

impl NoteBackend for SqliteBackend {
    fn create(&mut self, note: Note) -> Result<u16> {
        self.connection
            .execute(
                "INSERT INTO notes (id, name, owner, content) VALUES (?1, ?2, ?3, ?4)",
                (note.id, &note.name, &note.owner, &note.content),
            )
            .map_err(map_sqlite_error)?;
        Ok(note.id)
    }

    fn read(&self, id: u16) -> Result<Note> {
        self.connection
            .query_row(
                "SELECT id, name, owner, content FROM notes WHERE id = ?1",
                (id,),
                |row| {
                    Ok(Note {
                        id: row.get(0)?,
                        name: row.get(1)?,
                        owner: row.get(2)?,
                        content: row.get(3)?,
                    })
                },
            )
            .optional()
            .map_err(map_sqlite_error)?
            .ok_or(NoteError::Backend(BackendError::NoteNotFound(id)))
    }

    fn read_partial(&self, id: u16) -> Result<PartialNote> {
        self.connection
            .query_row(
                "SELECT id, name, owner FROM notes WHERE id = ?1",
                (id,),
                |row| {
                    Ok(PartialNote {
                        id: row.get(0)?,
                        name: row.get(1)?,
                        owner: row.get(2)?,
                    })
                },
            )
            .optional()
            .map_err(map_sqlite_error)?
            .ok_or(NoteError::Backend(BackendError::NoteNotFound(id)))
    }

    fn update(&mut self, note: Note) -> Result<()> {
        let rows = self
            .connection
            .execute(
                "UPDATE notes SET name = ?1, owner = ?2, content = ?3 WHERE id = ?4",
                (&note.name, &note.owner, &note.content, note.id),
            )
            .map_err(map_sqlite_error)?;
        if rows == 0 {
            Err(NoteError::Backend(BackendError::NoteNotFound(note.id)))
        } else {
            Ok(())
        }
    }

    fn delete(&mut self, id: u16) -> Result<()> {
        let rows = self
            .connection
            .execute("DELETE FROM notes WHERE id = ?1", (id,))
            .map_err(map_sqlite_error)?;
        if rows == 0 {
            Err(NoteError::Backend(BackendError::NoteNotFound(id)))
        } else {
            Ok(())
        }
    }

    fn list(&self) -> Result<Vec<PartialNote>> {
        let mut stmt = self
            .connection
            .prepare("SELECT id, name, owner FROM notes ORDER BY id ASC")
            .map_err(map_sqlite_error)?;
        let notes_iter = stmt
            .query_map([], |row| {
                Ok(PartialNote {
                    id: row.get(0)?,
                    name: row.get(1)?,
                    owner: row.get(2)?,
                })
            })
            .map_err(map_sqlite_error)?;
        notes_iter
            .collect::<std::result::Result<_, _>>()
            .map_err(map_sqlite_error)
    }
}

fn sqlite_svc() -> NoteService<SqliteBackend> {
    NoteService::new(
        SqliteBackend::open_in_memory(),
        "alice".to_string(),
        32,
        1024,
        100,
    )
}

#[test]
fn sqlite_create_then_read_round_trip() {
    let mut s = sqlite_svc();
    let id = s
        .create_note("shopping".to_string(), "milk\neggs".to_string())
        .unwrap();
    let n = s.read_note(id).unwrap();
    assert_eq!(n.name, "shopping");
    assert_eq!(n.content, "milk\neggs");
}

#[test]
fn sqlite_read_by_non_owner_is_denied() {
    let mut s = sqlite_svc();
    s.repo
        .create(Note {
            id: 3,
            owner: "bob".to_string(),
            name: "bobs".to_string(),
            content: "secret".to_string(),
        })
        .unwrap();
    let r = s.read_note(3);
    assert_eq!(
        r,
        Err(NoteError::Validation(NoteValidationError::PermissionDenied(
            3
        )))
    );
}

#[test]
fn sqlite_create_rejects_blank_name() {
    let mut s = sqlite_svc();
    let r = s.create_note("  ".to_string(), "content".to_string());
    assert_eq!(
        r,
        Err(NoteError::Validation(NoteValidationError::NameEmpty))
    );
}

#[test]
fn sqlite_delete_blocked_by_backlink() {
    let mut s = sqlite_svc();
    let b = s.create_note("Foo".to_string(), "Bar".to_string()).unwrap();
    let a = s
        .create_note("a".to_string(), format!("see [[{b}]]"))
        .unwrap();
    assert_eq!(
        s.delete_note(b),
        Err(NoteError::Validation(
            NoteValidationError::NoteIsReferenced(vec![a])
        ))
    );
}

#[test]
fn sqlite_duplicate_create_is_reported() {
    let mut b = SqliteBackend::open_in_memory();
    let n = Note {
        id: 1,
        owner: "alice".to_string(),
        name: "a".to_string(),
        content: "x".to_string(),
    };
    b.create(n.clone()).unwrap();
    assert_eq!(
        b.create(n),
        Err(NoteError::Backend(BackendError::Duplicate))
    );
}
