use noters::memory::MemoryBackend;
use noters::service::NoteService;
use noters::{Note, NoteBackend, NoteError, NoteValidationError, PartialNote};

fn svc() -> NoteService<MemoryBackend> {
    NoteService::new(MemoryBackend::new(), "alice".to_string(), 32, 1024, 100)
}

fn raw_note(id: u16, owner: &str, name: &str, content: &str) -> Note {
    Note {
        id,
        owner: owner.to_string(),
        name: name.to_string(),
        content: content.to_string(),
    }
}

#[test]
fn create_then_read_round_trip() {
    let mut s = svc();
    let id = s
        .create_note("shopping".to_string(), "milk\neggs".to_string())
        .unwrap();
    assert_eq!(id, 0);
    let n = s.read_note(id).unwrap();
    assert_eq!(n.name, "shopping");
    assert_eq!(n.owner, "alice");
    assert_eq!(n.content, "milk\neggs");
}

#[test]
fn create_then_read_expands_references() {
    let mut s = svc();
    let b = s.create_note("Foo".to_string(), "Bar".to_string()).unwrap();
    assert_eq!(b, 0);
    let a = s
        .create_note("a".to_string(), "see [[0]] end".to_string())
        .unwrap();
    assert_eq!(a, 1);
    let n = s.read_note(a).unwrap();
    assert_eq!(n.content, "see >>> #0 Foo\n>\n> Bar end");
}

#[test]
fn create_rejects_blank_name() {
    let mut s = svc();
    let r = s.create_note("   ".to_string(), "content".to_string());
    assert_eq!(
        r,
        Err(NoteError::Validation(NoteValidationError::NameEmpty))
    );
}

#[test]
fn create_rejects_blank_content() {
    let mut s = svc();
    let r = s.create_note("name".to_string(), " \t\n".to_string());
    assert_eq!(
        r,
        Err(NoteError::Validation(NoteValidationError::ContentEmpty))
    );
}

#[test]
fn create_rejects_oversized_name_and_content() {
    let mut s = NoteService::new(MemoryBackend::new(), "alice".to_string(), 4, 8, 100);
    let r = s.create_note("abcde".to_string(), "ok".to_string());
    assert_eq!(
        r,
        Err(NoteError::Validation(NoteValidationError::NameTooLarge {
            max: 4,
            got: 5
        }))
    );
    let r = s.create_note("abcd".to_string(), "123456789".to_string());
    assert_eq!(
        r,
        Err(NoteError::Validation(
            NoteValidationError::ContentTooLarge { max: 8, got: 9 }
        ))
    );
}

#[test]
fn rate_limit_needs_cap_plus_one_notes() {
    let mut s = NoteService::new(MemoryBackend::new(), "alice".to_string(), 32, 1024, 2);
    // Exactly the cap: the next create still succeeds (the check is
    // count > cap, not >=).
    s.repo.create(raw_note(10, "alice", "a", "x")).unwrap();
    s.repo.create(raw_note(11, "alice", "b", "x")).unwrap();
    let r = s.create_note("c".to_string(), "x".to_string());
    assert_eq!(r, Ok(0));
    // Now cap + 1 notes are stored: the next create is blocked.
    let r = s.create_note("d".to_string(), "x".to_string());
    assert_eq!(
        r,
        Err(NoteError::Validation(
            NoteValidationError::NoteCountRateLimit { max: 2 }
        ))
    );
}

#[test]
fn create_rejects_reference_to_foreign_note() {
    let mut s = svc();
    s.repo.create(raw_note(5, "bob", "bobs", "secret")).unwrap();
    let r = s.create_note("a".to_string(), "see [[5]]".to_string());
    assert_eq!(
        r,
        Err(NoteError::Validation(NoteValidationError::PermissionDenied(
            5
        )))
    );
}

#[test]
fn update_rejects_reference_to_foreign_note() {
    let mut s = svc();
    s.repo.create(raw_note(5, "bob", "bobs", "secret")).unwrap();
    let a = s.create_note("a".to_string(), "plain".to_string()).unwrap();
    let r = s.update_note(raw_note(a, "alice", "a", "see [[5]]"));
    assert_eq!(
        r,
        Err(NoteError::Validation(NoteValidationError::PermissionDenied(
            5
        )))
    );
}

#[test]
fn create_rejects_missing_reference() {
    let mut s = svc();
    let r = s.create_note("a".to_string(), "see [[999]]".to_string());
    assert_eq!(
        r,
        Err(NoteError::Validation(
            NoteValidationError::ReferenceNotFound(999)
        ))
    );
}

#[test]
fn update_rejects_missing_reference() {
    let mut s = svc();
    let a = s.create_note("a".to_string(), "plain".to_string()).unwrap();
    let r = s.update_note(raw_note(a, "alice", "a", "see [[999]]"));
    assert_eq!(
        r,
        Err(NoteError::Validation(
            NoteValidationError::ReferenceNotFound(999)
        ))
    );
}

#[test]
fn read_expansion_block_format() {
    let mut s = svc();
    let b = s.create_note("Foo".to_string(), "Bar".to_string()).unwrap();
    let a = s
        .create_note("a".to_string(), format!("[[{b}]]"))
        .unwrap();
    let n = s.read_note(a).unwrap();
    assert_eq!(n.content, ">>> #0 Foo\n>\n> Bar");
}

#[test]
fn read_expands_multiline_reference_as_quote() {
    let mut s = svc();
    let b = s
        .create_note("Foo".to_string(), "Bar\nBaz".to_string())
        .unwrap();
    let a = s
        .create_note("a".to_string(), format!("[[{b}]]"))
        .unwrap();
    let n = s.read_note(a).unwrap();
    assert_eq!(n.content, ">>> #0 Foo\n>\n> Bar\n> Baz");
}

#[test]
fn read_expands_repeated_reference_identically() {
    let mut s = svc();
    let b = s.create_note("Foo".to_string(), "Bar".to_string()).unwrap();
    let a = s
        .create_note("a".to_string(), format!("[[{b}]] and [[{b}]]"))
        .unwrap();
    let n = s.read_note(a).unwrap();
    assert_eq!(n.content, ">>> #0 Foo\n>\n> Bar and >>> #0 Foo\n>\n> Bar");
}

#[test]
fn delete_blocked_by_backlink_then_allowed() {
    let mut s = svc();
    let b = s.create_note("Foo".to_string(), "Bar".to_string()).unwrap();
    let a = s
        .create_note("a".to_string(), format!("see [[{b}]]"))
        .unwrap();
    let r = s.delete_note(b);
    assert_eq!(
        r,
        Err(NoteError::Validation(
            NoteValidationError::NoteIsReferenced(vec![a])
        ))
    );
    // Remove the reference; deletion now succeeds.
    s.update_note(raw_note(a, "alice", "a", "no reference any more"))
        .unwrap();
    assert_eq!(s.delete_note(b), Ok(()));
    assert!(s.read_note(b).is_err());
}

#[test]
fn delete_lists_every_backlink() {
    let mut s = svc();
    let b = s.create_note("Foo".to_string(), "Bar".to_string()).unwrap();
    let a1 = s
        .create_note("a1".to_string(), format!("[[{b}]]"))
        .unwrap();
    let a2 = s
        .create_note("a2".to_string(), format!("also [[{b}]]"))
        .unwrap();
    let r = s.delete_note(b);
    assert_eq!(
        r,
        Err(NoteError::Validation(
            NoteValidationError::NoteIsReferenced(vec![a1, a2])
        ))
    );
}

#[test]
fn self_reference_does_not_block_deletion() {
    let mut s = svc();
    let id = s.create_note("a".to_string(), "plain".to_string()).unwrap();
    // Another note exists but does not reference `id`.
    s.create_note("other".to_string(), "text".to_string())
        .unwrap();
    s.update_note(raw_note(id, "alice", "a", &format!("me: [[{id}]]")))
        .unwrap();
    assert_eq!(s.delete_note(id), Ok(()));
}

#[test]
fn read_by_non_owner_is_denied() {
    let mut s = svc();
    s.repo.create(raw_note(3, "bob", "bobs", "secret")).unwrap();
    let r = s.read_note(3);
    assert_eq!(
        r,
        Err(NoteError::Validation(NoteValidationError::PermissionDenied(
            3
        )))
    );
}

#[test]
fn delete_by_non_owner_is_denied() {
    let mut s = svc();
    s.repo.create(raw_note(3, "bob", "bobs", "secret")).unwrap();
    let r = s.delete_note(3);
    assert_eq!(
        r,
        Err(NoteError::Validation(NoteValidationError::PermissionDenied(
            3
        )))
    );
}

#[test]
fn update_missing_note_fails() {
    let mut s = svc();
    let r = s.update_note(raw_note(7, "alice", "a", "content"));
    assert_eq!(
        r,
        Err(NoteError::Validation(NoteValidationError::NoteNotFound(7)))
    );
}

#[test]
fn list_notes_is_sorted_and_complete() {
    let mut s = svc();
    s.repo.create(raw_note(9, "bob", "b9", "x")).unwrap();
    s.create_note("mine".to_string(), "x".to_string()).unwrap();
    let l = s.list_notes().unwrap();
    let ids: Vec<u16> = l.iter().map(|p: &PartialNote| p.id).collect();
    assert_eq!(ids, vec![0, 9]);
    assert_eq!(l[0].name, "mine");
    assert_eq!(l[0].owner, "alice");
    assert_eq!(l[1].name, "b9");
    assert_eq!(l[1].owner, "bob");
}

#[test]
fn ids_are_allocated_lowest_first_and_reused() {
    let mut s = svc();
    let a = s.create_note("a".to_string(), "x".to_string()).unwrap();
    let b = s.create_note("b".to_string(), "x".to_string()).unwrap();
    let c = s.create_note("c".to_string(), "x".to_string()).unwrap();
    assert_eq!((a, b, c), (0, 1, 2));
    s.delete_note(b).unwrap();
    let d = s.create_note("d".to_string(), "x".to_string()).unwrap();
    assert_eq!(d, 1);
}

#[test]
fn flag_note_uses_placeholder_and_fixed_owner() {
    let mut s = svc();
    let id = s.create_flag_note(None).unwrap();
    assert_eq!(id, 0);
    // The seed note belongs to a fixed non-user principal, so even the
    // acting user may not read it through the service.
    let r = s.read_note(id);
    assert_eq!(
        r,
        Err(NoteError::Validation(NoteValidationError::PermissionDenied(
            0
        )))
    );
    let n = s.repo.read(id).unwrap();
    assert_eq!(n.owner, "Norske N\u{f8}kkelsnikere");
    assert_eq!(n.name, "flag");
    assert_eq!(n.content, "NNSCTF{placeholder}");
}

#[test]
fn flag_note_uses_configured_secret() {
    let mut s = svc();
    let id = s
        .create_flag_note(Some("NNSCTF{real}".to_string()))
        .unwrap();
    let n = s.repo.read(id).unwrap();
    assert_eq!(n.content, "NNSCTF{real}");
}

#[test]
fn validate_name_rules() {
    assert!(NoteService::<MemoryBackend>::validate_name("ok", 32).is_ok());
    assert_eq!(
        NoteService::<MemoryBackend>::validate_name(" \t ", 32),
        Err(NoteError::Validation(NoteValidationError::NameEmpty))
    );
    assert_eq!(
        NoteService::<MemoryBackend>::validate_name("abcd", 3),
        Err(NoteError::Validation(NoteValidationError::NameTooLarge {
            max: 3,
            got: 4
        }))
    );
}

#[test]
fn validate_content_rules() {
    assert!(NoteService::<MemoryBackend>::validate_content("ok", 1024).is_ok());
    assert_eq!(
        NoteService::<MemoryBackend>::validate_content("", 1024),
        Err(NoteError::Validation(NoteValidationError::ContentEmpty))
    );
    assert_eq!(
        NoteService::<MemoryBackend>::validate_content("abcd", 3),
        Err(NoteError::Validation(
            NoteValidationError::ContentTooLarge { max: 3, got: 4 }
        ))
    );
}

#[test]
fn sizes_exactly_at_the_limit_pass() {
    let mut s = NoteService::new(MemoryBackend::new(), "alice".to_string(), 4, 6, 100);
    assert_eq!(s.create_note("abcd".to_string(), "123456".to_string()), Ok(0));
}

#[test]
fn read_fails_on_dangling_reference() {
    // References are validated at write time only; a record seeded behind the
    // service's back may dangle, and reading it reports the reference.
    let mut s = svc();
    s.repo
        .create(raw_note(0, "alice", "a", "see [[9]]"))
        .unwrap();
    assert_eq!(
        s.read_note(0),
        Err(NoteError::Validation(
            NoteValidationError::ReferenceNotFound(9)
        ))
    );
}

#[test]
fn read_missing_note_reports_not_found() {
    let s = svc();
    assert_eq!(
        s.read_note(42),
        Err(NoteError::Backend(noters::BackendError::NoteNotFound(42)))
    );
}

#[test]
fn update_stores_the_caller_supplied_owner() {
    // Owner immutability is caller discipline: the service passes the struct
    // through to storage unchanged.
    let mut s = svc();
    let id = s.create_note("a".to_string(), "x".to_string()).unwrap();
    s.update_note(raw_note(id, "mallory", "a", "x")).unwrap();
    let stored = s.repo.read(id).unwrap();
    assert_eq!(stored.owner, "mallory");
}

#[test]
fn empty_store_lists_nothing() {
    let s = svc();
    assert_eq!(s.list_notes().unwrap(), Vec::<PartialNote>::new());
}

#[test]
fn validate_sizes_count_bytes_not_chars() {
    // A two-byte character: the byte length is what counts.
    assert_eq!(
        NoteService::<MemoryBackend>::validate_name("\u{e9}\u{e9}", 3),
        Err(NoteError::Validation(NoteValidationError::NameTooLarge {
            max: 3,
            got: 4
        }))
    );
}
