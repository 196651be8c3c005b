use noters::file_format::{encode_note_file, note_filename, parse_note_file, parse_partial_note_file};
use noters::{BackendError, Note, NoteError};

fn note(id: u16, owner: &str, name: &str, content: &str) -> Note {
    Note {
        id,
        owner: owner.to_string(),
        name: name.to_string(),
        content: content.to_string(),
    }
}

#[test]
fn encode_joins_three_fields_with_newlines() {
    let body = encode_note_file(&note(1, "alice", "groceries", "milk\neggs"));
    assert_eq!(body, "groceries\nalice\nmilk\neggs");
}

#[test]
fn round_trip_preserves_multiline_content() {
    let original = note(4, "alice", "groceries", "milk\neggs\nbread");
    let body = encode_note_file(&original);
    let back = parse_note_file(4, &body).unwrap();
    assert_eq!(back.id, 4);
    assert_eq!(back.name, original.name);
    assert_eq!(back.owner, original.owner);
    assert_eq!(back.content, original.content);
}

#[test]
fn round_trip_drops_single_trailing_newline_but_keeps_lines() {
    let body = encode_note_file(&note(2, "alice", "n", "a\nb\n"));
    let back = parse_note_file(2, &body).unwrap();
    assert_eq!(back.content, "a\nb");
    let lines: Vec<&str> = back.content.lines().collect();
    assert_eq!(lines, vec!["a", "b"]);
}

#[test]
fn partial_parse_reads_name_and_owner_only() {
    let body = encode_note_file(&note(3, "bob", "title", "text"));
    let p = parse_partial_note_file(3, &body).unwrap();
    assert_eq!(p.id, 3);
    assert_eq!(p.name, "title");
    assert_eq!(p.owner, "bob");
}

#[test]
fn parse_rejects_truncated_bodies() {
    assert_eq!(
        parse_note_file(0, "only-one-line"),
        Err(NoteError::Backend(BackendError::NoteCorrupted))
    );
    assert_eq!(
        parse_note_file(0, ""),
        Err(NoteError::Backend(BackendError::NoteCorrupted))
    );
    assert_eq!(
        parse_partial_note_file(0, "only-one-line"),
        Err(NoteError::Backend(BackendError::NoteCorrupted))
    );
}

#[test]
fn parse_rejects_blank_content() {
    assert_eq!(
        parse_note_file(0, "name\nowner"),
        Err(NoteError::Backend(BackendError::NoteCorrupted))
    );
    assert_eq!(
        parse_note_file(0, "name\nowner\n \t "),
        Err(NoteError::Backend(BackendError::NoteCorrupted))
    );
    // The partial projection does not need content at all.
    assert!(parse_partial_note_file(0, "name\nowner").is_ok());
}

#[test]
fn filenames_are_zero_padded_ids() {
    assert_eq!(note_filename(0), "00000.note");
    assert_eq!(note_filename(7), "00007.note");
    assert_eq!(note_filename(123), "00123.note");
    assert_eq!(note_filename(65535), "65535.note");
}
