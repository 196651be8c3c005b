use noters::memory::MemoryBackend;
use noters::menu::MenuOption;
use noters::{BackendError, MenuError, Note, NoteBackend, NoteError};

#[test]
fn menu_numbers_and_labels() {
    assert_eq!(MenuOption::Create.number(), 1);
    assert_eq!(MenuOption::AddFlag.number(), 6);
    assert_eq!(MenuOption::Create.label(), "Create note");
    assert_eq!(MenuOption::List.label(), "List notes");
}

#[test]
fn menu_from_number_covers_exactly_one_to_six() {
    assert_eq!(MenuOption::from_number(1), Some(MenuOption::Create));
    assert_eq!(MenuOption::from_number(2), Some(MenuOption::Read));
    assert_eq!(MenuOption::from_number(3), Some(MenuOption::Update));
    assert_eq!(MenuOption::from_number(4), Some(MenuOption::Delete));
    assert_eq!(MenuOption::from_number(5), Some(MenuOption::List));
    assert_eq!(MenuOption::from_number(6), Some(MenuOption::AddFlag));
    assert_eq!(MenuOption::from_number(0), None);
    assert_eq!(MenuOption::from_number(7), None);
}

#[test]
fn menu_input_parsing() {
    assert_eq!(MenuOption::from_input("1"), Ok(MenuOption::Create));
    assert_eq!(MenuOption::from_input("6"), Ok(MenuOption::AddFlag));
    assert_eq!(
        MenuOption::from_input("9"),
        Err(NoteError::Menu(MenuError::InvalidOption(9)))
    );
    assert_eq!(
        MenuOption::from_input("abc"),
        Err(NoteError::Menu(MenuError::ParseError("abc".to_string())))
    );
    // A number too large for eight bits is a parse error, not an option.
    assert_eq!(
        MenuOption::from_input("300"),
        Err(NoteError::Menu(MenuError::ParseError("300".to_string())))
    );
}

fn raw_note(id: u16, owner: &str, name: &str, content: &str) -> Note {
    Note {
        id,
        owner: owner.to_string(),
        name: name.to_string(),
        content: content.to_string(),
    }
}

#[test]
fn backend_create_guards_duplicates() {
    let mut b = MemoryBackend::new();
    assert_eq!(b.create(raw_note(1, "alice", "a", "x")), Ok(1));
    assert_eq!(
        b.create(raw_note(1, "alice", "again", "y")),
        Err(NoteError::Backend(BackendError::Duplicate))
    );
}

#[test]
fn backend_read_and_delete_report_missing_notes() {
    let mut b = MemoryBackend::new();
    match b.read(9) {
        Err(NoteError::Backend(BackendError::NoteNotFound(9))) => {}
        other => panic!("unexpected result: {other:?}"),
    }
    assert_eq!(
        b.delete(9),
        Err(NoteError::Backend(BackendError::NoteNotFound(9)))
    );
    assert_eq!(
        b.update(raw_note(9, "alice", "a", "x")),
        Err(NoteError::Backend(BackendError::NoteNotFound(9)))
    );
}

#[test]
fn backend_update_replaces_all_fields() {
    let mut b = MemoryBackend::new();
    b.create(raw_note(1, "alice", "a", "x")).unwrap();
    b.update(raw_note(1, "alice", "b", "y")).unwrap();
    let n = b.read(1).unwrap();
    assert_eq!(n.name, "b");
    assert_eq!(n.content, "y");
}

#[test]
fn backend_list_sorts_by_id() {
    let mut b = MemoryBackend::new();
    b.create(raw_note(5, "alice", "five", "x")).unwrap();
    b.create(raw_note(1, "alice", "one", "x")).unwrap();
    b.create(raw_note(3, "alice", "three", "x")).unwrap();
    let ids: Vec<u16> = b.list().unwrap().iter().map(|p| p.id).collect();
    assert_eq!(ids, vec![1, 3, 5]);
}
