//! The note service: owns every business rule — input validation,
//! reference-integrity checks, ownership enforcement and ID allocation — and
//! delegates persistence to a storage backend.
use vstd::prelude::*;

use crate::expand::{expand_refs, make_expansion, make_placeholder, replace_str};
use crate::refs::{extract_references, spec_references};
use crate::text::{byte_len, is_blank, str_is_blank};
use crate::{
    is_backend_failure, is_listing, partial_view, Note, NoteBackend, NoteError, NoteValidationError,
    NoteView, PartialNote, Result,
};

verus! {

/// The outcome of validating a note name against `max`: blank names and names
/// longer than `max` bytes are rejected.
pub open spec fn spec_validate_name(name: Seq<char>, max: u8) -> Result<()> {
    if is_blank(name) {
        Err(NoteError::Validation(NoteValidationError::NameEmpty))
    } else if byte_len(name) > max {
        Err(
            NoteError::Validation(
                NoteValidationError::NameTooLarge { max, got: byte_len(name) as usize },
            ),
        )
    } else {
        Ok(())
    }
}

/// The outcome of validating note content against `max`: blank content and
/// content longer than `max` bytes are rejected.
pub open spec fn spec_validate_content(content: Seq<char>, max: u16) -> Result<()> {
    if is_blank(content) {
        Err(NoteError::Validation(NoteValidationError::ContentEmpty))
    } else if byte_len(content) > max {
        Err(
            NoteError::Validation(
                NoteValidationError::ContentTooLarge { max, got: byte_len(content) as usize },
            ),
        )
    } else {
        Ok(())
    }
}

/// The first reference in `refs` that is rejected: a reference to an ID not in
/// `m` fails as not found, and one to a note not owned by `user` fails as
/// permission denied. `None` when every reference is acceptable.
pub open spec fn first_ref_error(refs: Seq<u16>, m: Map<u16, NoteView>, user: Seq<char>) -> Option<
    NoteError,
>
    decreases refs.len(),
{
    if refs.len() == 0 {
        None
    } else if !m.contains_key(refs[0]) {
        Some(NoteError::Validation(NoteValidationError::ReferenceNotFound(refs[0])))
    } else if m[refs[0]].owner != user {
        Some(NoteError::Validation(NoteValidationError::PermissionDenied(refs[0])))
    } else {
        first_ref_error(refs.drop_first(), m, user)
    }
}

/// The lowest ID in `[i, cap)` that `m` does not hold.
pub open spec fn first_free_from(m: Map<u16, NoteView>, i: int, cap: u16) -> Option<u16>
    decreases cap - i when 0 <= i <= cap
{
    if i >= cap {
        None
    } else if !m.contains_key(i as u16) {
        Some(i as u16)
    } else {
        first_free_from(m, i + 1, cap)
    }
}

/// The lowest unused ID below `cap`, scanned from zero.
pub open spec fn spec_first_free(m: Map<u16, NoteView>, cap: u16) -> Option<u16> {
    first_free_from(m, 0, cap)
}

/// The error `create_note` owes for these inputs over store `m`, or `None`
/// when it owes success: name is validated, then content, then the note count
/// (the store may exceed the cap by one before creation blocks), then every
/// reference in order.
pub open spec fn expected_create_err(
    m: Map<u16, NoteView>,
    user: Seq<char>,
    name: Seq<char>,
    content: Seq<char>,
    max_name: u8,
    max_content: u16,
    max_count: u16,
) -> Option<NoteError> {
    match spec_validate_name(name, max_name) {
        Err(e) => Some(e),
        Ok(u) => match spec_validate_content(content, max_content) {
            Err(e) => Some(e),
            Ok(v) => if m.dom().len() > max_count {
                Some(NoteError::Validation(NoteValidationError::NoteCountRateLimit { max: max_count }))
            } else {
                first_ref_error(spec_references(content), m, user)
            },
        },
    }
}

/// The first reference in `refs` whose note `m` does not hold: expansion
/// fails on it as reference-not-found.
pub open spec fn first_missing_ref(refs: Seq<u16>, m: Map<u16, NoteView>) -> Option<NoteError>
    decreases refs.len(),
{
    if refs.len() == 0 {
        None
    } else if !m.contains_key(refs[0]) {
        Some(NoteError::Validation(NoteValidationError::ReferenceNotFound(refs[0])))
    } else {
        first_missing_ref(refs.drop_first(), m)
    }
}

/// The error `read_note` owes for note `id` over store `m`, or `None` when it
/// owes the expanded note: a missing note fails as not found, one the acting
/// user does not own as permission denied, and expansion fails on the first
/// reference to a missing note.
pub open spec fn expected_read_err(m: Map<u16, NoteView>, user: Seq<char>, id: u16) -> Option<
    NoteError,
> {
    if !m.contains_key(id) {
        Some(NoteError::Backend(crate::BackendError::NoteNotFound(id)))
    } else if m[id].owner != user {
        Some(NoteError::Validation(NoteValidationError::PermissionDenied(id)))
    } else {
        first_missing_ref(spec_references(m[id].content), m)
    }
}

/// The error `update_note` owes for `note` over store `m`, or `None` when it
/// owes success: the new name is validated, then the new content, then every
/// reference in the new content in order, and finally the note itself must
/// exist.
pub open spec fn expected_update_err(
    m: Map<u16, NoteView>,
    user: Seq<char>,
    note: NoteView,
    max_name: u8,
    max_content: u16,
) -> Option<NoteError> {
    match spec_validate_name(note.name, max_name) {
        Err(e) => Some(e),
        Ok(u) => match spec_validate_content(note.content, max_content) {
            Err(e) => Some(e),
            Ok(v) => match first_ref_error(spec_references(note.content), m, user) {
                Some(e) => Some(e),
                None => if !m.contains_key(note.id) {
                    Some(NoteError::Validation(NoteValidationError::NoteNotFound(note.id)))
                } else {
                    None
                },
            },
        },
    }
}

/// Note `n`'s content contains a reference token to `id`.
pub open spec fn references_note(n: NoteView, id: u16) -> bool {
    spec_references(n.content).contains(id)
}

/// The IDs of the notes in `m`, other than `id` itself, whose content
/// references `id`: the backlinks that protect `id` from deletion. A note
/// referencing only itself has no backlinks.
pub open spec fn backlink_ids(m: Map<u16, NoteView>, id: u16) -> Set<u16> {
    Set::new(|p: u16| p != id && m.contains_key(p) && references_note(m[p], id))
}

/// The backlinks to `id` found among the listed notes, in listing order.
pub open spec fn backlinks_of_listing(
    l: Seq<PartialNote>,
    m: Map<u16, NoteView>,
    id: u16,
) -> Seq<u16>
    decreases l.len(),
{
    if l.len() == 0 {
        Seq::empty()
    } else {
        let rest = backlinks_of_listing(l.drop_last(), m, id);
        let p = l.last();
        if p.id != id && m.contains_key(p.id) && references_note(m[p.id], id) {
            rest.push(p.id)
        } else {
            rest
        }
    }
}

/// The sequence ascends strictly, so it holds no duplicates.
pub open spec fn strictly_ascending(s: Seq<u16>) -> bool {
    forall|i: int, j: int| 0 <= i < j < s.len() ==> s[i] < s[j]
}

/// Over a listing in strictly ascending ID order, the backlinks collected in
/// listing order hold exactly the listed notes that reference `id` (other
/// than `id` itself), and ascend strictly.
proof fn lemma_backlinks_listing(l: Seq<PartialNote>, m: Map<u16, NoteView>, id: u16)
    requires
        forall|i: int, j: int| 0 <= i < j < l.len() ==> (#[trigger] l[i]).id < (#[trigger] l[j]).id,
    ensures
        forall|p: u16|
            #[trigger] backlinks_of_listing(l, m, id).contains(p) <==> (listing_has(l, p) && p != id
                && m.contains_key(p) && references_note(m[p], id)),
        strictly_ascending(backlinks_of_listing(l, m, id)),
    decreases l.len(),
{
    let b = backlinks_of_listing(l, m, id);
    if l.len() > 0 {
        let l2 = l.drop_last();
        let rest = backlinks_of_listing(l2, m, id);
        let p = l.last();
        lemma_backlinks_listing(l2, m, id);
        assert forall|q: u16| #[trigger] b.contains(q) implies (listing_has(l, q) && q != id
            && m.contains_key(q) && references_note(m[q], id)) by {
            let k = choose|k: int| 0 <= k < b.len() && b[k] == q;
            if k < rest.len() {
                assert(rest[k] == q);
                assert(rest.contains(q));
                let i = choose|i: int| 0 <= i < l2.len() && (#[trigger] l2[i]).id == q;
                assert(l[i].id == q);
                assert(listing_has(l, q));
            } else {
                assert(q == p.id);
                assert(l[l.len() - 1].id == q);
                assert(listing_has(l, q));
            }
        }
        assert forall|q: u16| (listing_has(l, q) && q != id && m.contains_key(q)
            && references_note(m[q], id)) implies #[trigger] b.contains(q) by {
            let i = choose|i: int| 0 <= i < l.len() && (#[trigger] l[i]).id == q;
            if i < l.len() - 1 {
                assert(l2[i].id == q);
                assert(listing_has(l2, q));
                assert(rest.contains(q));
                let k = choose|k: int| 0 <= k < rest.len() && rest[k] == q;
                assert(b[k] == q);
            } else {
                assert(q == p.id);
                assert(b[b.len() - 1] == q);
            }
        }
        assert forall|a: int, c: int| 0 <= a < c < b.len() implies b[a] < b[c] by {
            if c < rest.len() {
                assert(rest[a] == b[a] && rest[c] == b[c]);
            } else {
                // The last element is the newly pushed ID, larger than any
                // listed ID before it.
                assert(b[c] == p.id);
                assert(rest.contains(rest[a]));
                assert(rest[a] == b[a]);
                let i = choose|i: int| 0 <= i < l2.len() && (#[trigger] l2[i]).id == b[a];
                assert(l[i].id == b[a]);
                assert(l[i].id < p.id);
            }
        }
    }
}

/// Some entry of the listing carries ID `id`.
pub open spec fn listing_has(l: Seq<PartialNote>, id: u16) -> bool {
    exists|i: int| 0 <= i < l.len() && (#[trigger] l[i]).id == id
}

/// A listing of `m` holds exactly the IDs of `m`.
pub proof fn lemma_listing_has(l: Seq<PartialNote>, m: Map<u16, NoteView>)
    requires
        is_listing(l, m),
    ensures
        forall|id: u16| listing_has(l, id) <==> m.contains_key(id),
{
    assert forall|id: u16| listing_has(l, id) implies m.contains_key(id) by {
        let i = choose|i: int| 0 <= i < l.len() && (#[trigger] l[i]).id == id;
        assert(m.contains_key(l[i].id));
    }
}

/// A listing of `m` has exactly one entry per stored note, so its length is
/// the number of stored notes; in particular the store is finite.
pub proof fn lemma_listing_len(l: Seq<PartialNote>, m: Map<u16, NoteView>)
    requires
        is_listing(l, m),
    ensures
        m.dom().finite(),
        m.dom().len() == l.len(),
    decreases l.len(),
{
    if l.len() == 0 {
        assert forall|id: u16| !(#[trigger] m.contains_key(id)) by {
            if m.contains_key(id) {
                let i = choose|i: int| 0 <= i < l.len() && (#[trigger] l[i]).id == id;
            }
        }
        assert(m.dom() =~= Set::<u16>::empty());
    } else {
        let p = l.last();
        let l2 = l.drop_last();
        let m2 = m.remove(p.id);
        assert(m.contains_key(p.id)) by {
            assert(m.contains_key(l[l.len() - 1].id));
        }
        assert forall|i: int| 0 <= i < l2.len() implies m2.contains_key((#[trigger] l2[i]).id)
            && l2[i]@ == partial_view(m2[l2[i].id]) by {
            assert(l2[i] == l[i]);
            assert(l[i].id < p.id);
        }
        assert forall|id: u16| #[trigger] m2.contains_key(id) implies exists|i: int|
            0 <= i < l2.len() && (#[trigger] l2[i]).id == id by {
            assert(m.contains_key(id));
            let i = choose|i: int| 0 <= i < l.len() && (#[trigger] l[i]).id == id;
            assert(i < l.len() - 1) by {
                if i == l.len() - 1 {
                    assert(l[i].id == p.id);
                }
            }
            assert(l2[i].id == id);
        }
        assert(is_listing(l2, m2));
        lemma_listing_len(l2, m2);
        assert(m.dom() =~= m2.dom().insert(p.id));
    }
}

proof fn lemma_first_free_not_contained(m: Map<u16, NoteView>, cap: u16, i: int, id: u16)
    requires
        0 <= i <= cap,
        first_free_from(m, i, cap) == Some(id),
    ensures
        !m.contains_key(id),
        id < cap,
    decreases cap - i,
{
    if i < cap && m.contains_key(i as u16) {
        lemma_first_free_not_contained(m, cap, i + 1, id);
    }
}

proof fn lemma_refs_present(refs: Seq<u16>, m: Map<u16, NoteView>, m2: Map<u16, NoteView>, user: Seq<char>)
    requires
        first_ref_error(refs, m, user) is None,
        forall|k: u16| m.contains_key(k) ==> m2.contains_key(k),
    ensures
        first_missing_ref(refs, m2) is None,
    decreases refs.len(),
{
    if refs.len() > 0 {
        assert(m.contains_key(refs[0]));
        lemma_refs_present(refs.drop_first(), m, m2, user);
    }
}

proof fn lemma_first_ref_error_kinds(refs: Seq<u16>, m: Map<u16, NoteView>, user: Seq<char>)
    ensures
        match first_ref_error(refs, m, user) {
            Some(e) => (e matches NoteError::Validation(NoteValidationError::ReferenceNotFound(_)))
                || (e matches NoteError::Validation(NoteValidationError::PermissionDenied(_))),
            None => true,
        },
    decreases refs.len(),
{
    if refs.len() > 0 && m.contains_key(refs[0]) && m[refs[0]].owner == user {
        lemma_first_ref_error_kinds(refs.drop_first(), m, user);
    }
}

/// Law: a sequence of references is accepted — creation and update alike —
/// exactly when every referenced note exists and is owned by the acting
/// user; a reference to a missing note or to another user's note is always
/// rejected.
pub proof fn lemma_references_accepted_iff(refs: Seq<u16>, m: Map<u16, NoteView>, user: Seq<char>)
    ensures
        first_ref_error(refs, m, user) is None <==> (forall|k: int|
            0 <= k < refs.len() ==> m.contains_key(#[trigger] refs[k]) && m[refs[k]].owner
                == user),
    decreases refs.len(),
{
    if refs.len() > 0 && m.contains_key(refs[0]) && m[refs[0]].owner == user {
        lemma_references_accepted_iff(refs.drop_first(), m, user);
        let rest = refs.drop_first();
        if first_ref_error(refs, m, user) is None {
            assert forall|k: int|
                0 <= k < refs.len() implies m.contains_key(#[trigger] refs[k]) && m[refs[k]].owner
                == user by {
                if k > 0 {
                    assert(rest[k - 1] == refs[k]);
                }
            }
        }
        if forall|k: int|
            0 <= k < refs.len() ==> m.contains_key(#[trigger] refs[k]) && m[refs[k]].owner
                == user {
            assert forall|k: int|
                0 <= k < rest.len() implies m.contains_key(#[trigger] rest[k]) && m[rest[k]].owner
                == user by {
                assert(rest[k] == refs[k + 1]);
            }
        }
    }
}

/// Every reference stored anywhere in `m` names a note stored in `m`: the
/// invariant that the write-time reference checks and the deletion guard
/// together maintain.
pub open spec fn reference_integrity(m: Map<u16, NoteView>) -> bool {
    forall|p: u16, k: int|
        m.contains_key(p) && 0 <= k < spec_references(m[p].content).len() ==> m.contains_key(
            #[trigger] spec_references(m[p].content)[k],
        )
}

proof fn lemma_no_missing_ref(refs: Seq<u16>, m: Map<u16, NoteView>)
    requires
        forall|k: int| 0 <= k < refs.len() ==> m.contains_key(#[trigger] refs[k]),
    ensures
        first_missing_ref(refs, m) is None,
    decreases refs.len(),
{
    if refs.len() > 0 {
        let rest = refs.drop_first();
        assert forall|k: int| 0 <= k < rest.len() implies m.contains_key(#[trigger] rest[k]) by {
            assert(rest[k] == refs[k + 1]);
        }
        lemma_no_missing_ref(rest, m);
    }
}

/// Law: a store whose references were all accepted at write time keeps its
/// integrity through any accepted write — creation and update alike store a
/// note whose references were just checked against the store.
pub proof fn lemma_write_preserves_integrity(m: Map<u16, NoteView>, nv: NoteView, user: Seq<char>)
    requires
        reference_integrity(m),
        first_ref_error(spec_references(nv.content), m, user) is None,
    ensures
        reference_integrity(m.insert(nv.id, nv)),
{
    lemma_references_accepted_iff(spec_references(nv.content), m, user);
    let m2 = m.insert(nv.id, nv);
    assert forall|p: u16, k: int|
        m2.contains_key(p) && 0 <= k < spec_references(m2[p].content).len() implies m2.contains_key(
        #[trigger] spec_references(m2[p].content)[k],
    ) by {
        if p == nv.id {
            assert(m.contains_key(spec_references(nv.content)[k]));
        } else {
            assert(m2[p] == m[p]);
            assert(m.contains_key(spec_references(m[p].content)[k]));
        }
    }
}

/// Law: a deletion the backlink guard allows keeps the store's integrity —
/// with no backlink to `id` left, removing `id` can strand no reference.
pub proof fn lemma_delete_preserves_integrity(m: Map<u16, NoteView>, id: u16)
    requires
        reference_integrity(m),
        backlink_ids(m, id) == Set::<u16>::empty(),
    ensures
        reference_integrity(m.remove(id)),
{
    let m2 = m.remove(id);
    assert forall|p: u16, k: int|
        m2.contains_key(p) && 0 <= k < spec_references(m2[p].content).len() implies m2.contains_key(
        #[trigger] spec_references(m2[p].content)[k],
    ) by {
        assert(m2[p] == m[p]);
        let r = spec_references(m[p].content)[k];
        assert(m.contains_key(r));
        if r == id {
            assert(spec_references(m[p].content).contains(id));
            assert(backlink_ids(m, id).contains(p));
        }
    }
}

/// Law: in a store with reference integrity, reading a note its owner asks
/// for is never spoiled by a dangling reference — write-time checking and the
/// deletion guard make read-time failure on references impossible.
pub proof fn lemma_integrity_reads_never_dangle(m: Map<u16, NoteView>, user: Seq<char>, id: u16)
    requires
        reference_integrity(m),
        m.contains_key(id),
        m[id].owner == user,
    ensures
        expected_read_err(m, user, id) is None,
{
    let refs = spec_references(m[id].content);
    assert forall|k: int| 0 <= k < refs.len() implies m.contains_key(#[trigger] refs[k]) by {
        assert(m.contains_key(spec_references(m[id].content)[k]));
    }
    lemma_no_missing_ref(refs, m);
}

/// Law: a note just created reads back as written. If creation over store `m`
/// owes success and allocates `id`, then in the store that now holds the new
/// note, reading `id` owes success too — same name, same content, owned by
/// its creator — and its references expand against that store.
pub proof fn lemma_create_then_read(
    m: Map<u16, NoteView>,
    user: Seq<char>,
    name: Seq<char>,
    content: Seq<char>,
    id: u16,
    max_name: u8,
    max_content: u16,
    max_count: u16,
)
    requires
        expected_create_err(m, user, name, content, max_name, max_content, max_count) is None,
        spec_first_free(m, max_count) == Some(id),
    ensures
        ({
            let m2 = m.insert(id, NoteView { id, owner: user, name, content });
            &&& expected_read_err(m2, user, id) is None
            &&& m2[id].name == name
            &&& m2[id].owner == user
            &&& m2[id].content == content
        }),
{
    lemma_first_free_not_contained(m, max_count, 0, id);
    let m2 = m.insert(id, NoteView { id, owner: user, name, content });
    lemma_refs_present(spec_references(content), m, m2, user);
}

/// Law: the note-count gate trips exactly on a store that already exceeds the
/// cap. With valid inputs, creation owes the rate-limit error if and only if
/// the store holds more than `max_count` notes — so the cap must be exceeded
/// by one before creation blocks.
pub proof fn lemma_rate_limit_boundary(
    m: Map<u16, NoteView>,
    user: Seq<char>,
    name: Seq<char>,
    content: Seq<char>,
    max_name: u8,
    max_content: u16,
    max_count: u16,
)
    requires
        spec_validate_name(name, max_name) is Ok,
        spec_validate_content(content, max_content) is Ok,
    ensures
        expected_create_err(m, user, name, content, max_name, max_content, max_count) == Some(
            NoteError::Validation(NoteValidationError::NoteCountRateLimit { max: max_count }),
        ) <==> m.dom().len() > max_count,
{
    lemma_first_ref_error_kinds(spec_references(content), m, user);
}

/// Law: a note that references only itself is deletable without obstruction.
/// If no other stored note references `id`, the backlinks protecting `id` are
/// empty, whatever `id`'s own content says.
pub proof fn lemma_self_reference_never_blocks(m: Map<u16, NoteView>, id: u16)
    requires
        forall|p: u16| m.contains_key(p) && p != id ==> !references_note(#[trigger] m[p], id),
    ensures
        backlink_ids(m, id) == Set::<u16>::empty(),
{
    assert forall|p: u16| !(#[trigger] backlink_ids(m, id).contains(p)) by {
        if backlink_ids(m, id).contains(p) {
            assert(m.contains_key(p) && p != id);
        }
    }
    assert(backlink_ids(m, id) =~= Set::<u16>::empty());
}

proof fn lemma_first_free_some(m: Map<u16, NoteView>, cap: u16, i: int, id: u16)
    requires
        0 <= i <= id < cap,
        !m.contains_key(id),
        forall|k: u16| i <= k < id ==> m.contains_key(k),
    ensures
        first_free_from(m, i, cap) == Some(id),
    decreases id - i,
{
    if i < id {
        assert(m.contains_key(i as u16));
        lemma_first_free_some(m, cap, i + 1, id);
    }
}

proof fn lemma_first_free_none(m: Map<u16, NoteView>, cap: u16, i: int)
    requires
        0 <= i <= cap,
        forall|k: u16| k < cap ==> m.contains_key(k),
    ensures
        first_free_from(m, i, cap) == None::<u16>,
    decreases cap - i,
{
    if i < cap {
        lemma_first_free_none(m, cap, i + 1);
    }
}

/// Decides whether the vector holds `x`.
fn vec_contains_u16(v: &Vec<u16>, x: u16) -> (r: bool)
    ensures
        r == v@.contains(x),
{
    let n = v.len();
    let mut i: usize = 0;
    while i < n
        invariant
            n == v@.len(),
            i <= n,
            forall|j: int| 0 <= j < i ==> v@[j] != x,
        decreases n - i,
    {
        if v[i] == x {
            return true;
        }
        i += 1;
    }
    false
}

/// Decides whether the listing holds an entry with ID `id`.
fn contains_id(l: &Vec<PartialNote>, id: u16) -> (r: bool)
    ensures
        r == listing_has(l@, id),
{
    let n = l.len();
    let mut i: usize = 0;
    while i < n
        invariant
            n == l@.len(),
            i <= n,
            forall|j: int| 0 <= j < i ==> (#[trigger] l@[j]).id != id,
        decreases n - i,
    {
        if l[i].id == id {
            assert(l@[i as int].id == id);
            return true;
        }
        i += 1;
    }
    assert(!listing_has(l@, id));
    false
}

/// The lowest ID below `cap` that the listing does not hold.
fn find_free_id(l: &Vec<PartialNote>, cap: u16) -> (r: Option<u16>)
    ensures
        match r {
            Some(id) => id < cap && !listing_has(l@, id) && forall|k: u16|
                k < id ==> listing_has(l@, k),
            None => forall|k: u16| k < cap ==> listing_has(l@, k),
        },
{
    let mut id: u16 = 0;
    while id < cap
        invariant
            id <= cap,
            forall|k: u16| k < id ==> listing_has(l@, k),
        decreases cap - id,
    {
        if !contains_id(l, id) {
            return Some(id);
        }
        id += 1;
    }
    None
}

/// The note service. It holds the storage backend, the acting username, and
/// the configured limits on name length, content length and note count.
pub struct NoteService<B: NoteBackend> {
    pub repo: B,
    pub user: String,
    pub max_name_size: u8,
    pub max_content_size: u16,
    pub max_note_count: u16,
}

impl<B: NoteBackend> NoteService<B> {
    /// The service is usable: its backend is well formed.
    pub open spec fn wf(&self) -> bool {
        self.repo.inv()
    }

    /// The notes currently stored, as the backend presents them.
    pub open spec fn state(&self) -> Map<u16, NoteView> {
        self.repo.notes()
    }

    /// A service over `repo` acting as `user` under the given limits.
    pub fn new(
        repo: B,
        user: String,
        max_name_size: u8,
        max_content_size: u16,
        max_note_count: u16,
    ) -> (s: Self)
        requires
            repo.inv(),
        ensures
            s.wf(),
            s.repo == repo,
            s.user == user,
            s.max_name_size == max_name_size,
            s.max_content_size == max_content_size,
            s.max_note_count == max_note_count,
    {
        Self { repo, user, max_name_size, max_content_size, max_note_count }
    }

    /// Validates a note name: it must not be blank, and must be at most `max`
    /// bytes long.
    pub fn validate_name(name: &str, max: u8) -> (r: Result<()>)
        ensures
            r == spec_validate_name(name@, max),
    {
        if str_is_blank(name) {
            Err(NoteError::Validation(NoteValidationError::NameEmpty))
        } else if name.len() > max as usize {
            Err(
                NoteError::Validation(NoteValidationError::NameTooLarge { max, got: name.len() }),
            )
        } else {
            Ok(())
        }
    }

    /// Validates note content: it must not be blank, and must be at most
    /// `max` bytes long.
    pub fn validate_content(content: &str, max: u16) -> (r: Result<()>)
        ensures
            r == spec_validate_content(content@, max),
    {
        if str_is_blank(content) {
            Err(NoteError::Validation(NoteValidationError::ContentEmpty))
        } else if content.len() > max as usize {
            Err(
                NoteError::Validation(
                    NoteValidationError::ContentTooLarge { max, got: content.len() },
                ),
            )
        } else {
            Ok(())
        }
    }

    /// The IDs referenced by `s`, in token order, duplicates preserved.
    pub fn get_references(&self, s: &str) -> (r: Vec<u16>)
        ensures
            r@ == spec_references(s@),
    {
        extract_references(s)
    }

    /// Reads the partial projection of the note stored under `id`.
    fn get_partial_note(&self, id: u16) -> (r: Result<PartialNote>)
        requires
            self.wf(),
        ensures
            match r {
                Ok(p) => self.state().contains_key(id) && p@ == partial_view(self.state()[id]),
                Err(e) => is_backend_failure(e) && (!self.state().contains_key(id) ==> e
                    == NoteError::Backend(crate::BackendError::NoteNotFound(id))),
            },
    {
        self.repo.read_partial(id)
    }

    /// Lists every stored note's partial projection, in ascending ID order.
    pub fn list_notes(&self) -> (r: Result<Vec<PartialNote>>)
        requires
            self.wf(),
        ensures
            match r {
                Ok(l) => is_listing(l@, self.state()),
                Err(e) => is_backend_failure(e),
            },
    {
        self.repo.list()
    }

    /// Creates a new note owned by the acting user and returns its ID, chosen
    /// as the lowest unused ID below the note-count cap.
    ///
    /// The inputs are validated, the note count is checked against the cap,
    /// and every reference in the content must name an existing note owned by
    /// the acting user. A store already holding every ID below the cap while
    /// passing the count check would mean storage corrupted the service's own
    /// allocation discipline, and is excluded.
    pub fn create_note(&mut self, name: String, content: String) -> (r: Result<u16>)
        requires
            old(self).wf(),
            old(self).state().dom().len() > old(self).max_note_count || spec_first_free(
                old(self).state(),
                old(self).max_note_count,
            ) is Some,
        ensures
            final(self).wf(),
            final(self).user == old(self).user,
            final(self).max_name_size == old(self).max_name_size,
            final(self).max_content_size == old(self).max_content_size,
            final(self).max_note_count == old(self).max_note_count,
            spec_validate_name(name@, old(self).max_name_size) matches Err(e) ==> r == Err::<u16, NoteError>(e),
            spec_validate_name(name@, old(self).max_name_size) is Ok ==> (spec_validate_content(
                content@,
                old(self).max_content_size,
            ) matches Err(e) ==> r == Err::<u16, NoteError>(e)),
            match r {
                Ok(id) => {
                    &&& expected_create_err(
                        old(self).state(),
                        old(self).user@,
                        name@,
                        content@,
                        old(self).max_name_size,
                        old(self).max_content_size,
                        old(self).max_note_count,
                    ) is None
                    &&& Some(id) == spec_first_free(old(self).state(), old(self).max_note_count)
                    &&& final(self).state() == old(self).state().insert(
                        id,
                        NoteView { id, owner: old(self).user@, name: name@, content: content@ },
                    )
                },
                Err(e) => final(self).state() == old(self).state() && (is_backend_failure(e)
                    || Some(e) == expected_create_err(
                    old(self).state(),
                    old(self).user@,
                    name@,
                    content@,
                    old(self).max_name_size,
                    old(self).max_content_size,
                    old(self).max_note_count,
                )),
            },
    {
        let ghost m = self.state();
        let ghost user = self.user@;
        if let Err(e) = Self::validate_name(name.as_str(), self.max_name_size) {
            return Err(e);
        }
        if let Err(e) = Self::validate_content(content.as_str(), self.max_content_size) {
            return Err(e);
        }
        // Make sure not too many notes are created.
        let notes = match self.repo.list() {
            Ok(l) => l,
            Err(e) => {
                return Err(e);
            },
        };
        proof {
            lemma_listing_len(notes@, m);
            lemma_listing_has(notes@, m);
        }
        if notes.len() > self.max_note_count as usize {
            return Err(
                NoteError::Validation(
                    NoteValidationError::NoteCountRateLimit { max: self.max_note_count },
                ),
            );
        }
        // Find the lowest free ID.
        let available_id = match find_free_id(&notes, self.max_note_count) {
            Some(id) => {
                proof {
                    assert(!m.contains_key(id));
                    assert forall|k: u16| k < id implies m.contains_key(k) by {
                        assert(listing_has(notes@, k));
                    }
                    lemma_first_free_some(m, self.max_note_count, 0, id);
                }
                id
            },
            None => {
                proof {
                    assert forall|k: u16| k < self.max_note_count implies m.contains_key(k) by {
                        assert(listing_has(notes@, k));
                    }
                    lemma_first_free_none(m, self.max_note_count, 0);
                }
                return vstd::pervasive::unreached();
            },
        };
        // Make sure all referenced notes exist and are owned by the acting
        // user. References look like " [[1]] ", 1 being the referenced ID.
        let refs = self.get_references(content.as_str());
        let ghost all_refs = refs@;
        proof {
            assert(all_refs.skip(0) =~= all_refs);
        }
        let n = refs.len();
        let mut idx: usize = 0;
        while idx < n
            invariant
                self == old(self),
                self.wf(),
                m == self.state(),
                user == self.user@,
                all_refs == refs@,
                all_refs == spec_references(content@),
                spec_validate_name(name@, self.max_name_size) is Ok,
                spec_validate_content(content@, self.max_content_size) is Ok,
                n == refs@.len(),
                idx <= n,
                is_listing(notes@, m),
                Some(available_id) == spec_first_free(m, self.max_note_count),
                expected_create_err(
                    m,
                    user,
                    name@,
                    content@,
                    self.max_name_size,
                    self.max_content_size,
                    self.max_note_count,
                ) == first_ref_error(all_refs, m, user),
                first_ref_error(all_refs.skip(idx as int), m, user) == first_ref_error(
                    all_refs,
                    m,
                    user,
                ),
            decreases n - idx,
        {
            proof {
                lemma_listing_has(notes@, m);
            }
            let rid = refs[idx];
            proof {
                assert(all_refs.skip(idx as int)[0] == rid);
            }
            if !contains_id(&notes, rid) {
                return Err(NoteError::Validation(NoteValidationError::ReferenceNotFound(rid)));
            }
            let partial_note = match self.get_partial_note(rid) {
                Ok(p) => p,
                Err(e) => {
                    return Err(e);
                },
            };
            if !partial_note.owner.eq(&self.user) {
                return Err(NoteError::Validation(NoteValidationError::PermissionDenied(rid)));
            }
            proof {
                assert(all_refs.skip(idx as int).drop_first() =~= all_refs.skip(idx as int + 1));
            }
            idx += 1;
        }
        proof {
            assert(all_refs.skip(n as int) =~= Seq::<u16>::empty());
        }
        // The creator is the owner.
        let note = Note {
            id: available_id,
            owner: self.user.clone(),
            name,
            content,
        };
        self.repo.create(note)
    }

    /// Reads the note stored under `id` and expands every reference token in
    /// its content: `[[rid]]` becomes the quoted block of note `rid`. Only
    /// the owner may read a note; expansion fails as reference-not-found on
    /// any referenced note that cannot be read back.
    pub fn read_note(&self, id: u16) -> (r: Result<Note>)
        requires
            self.wf(),
        ensures
            match r {
                Ok(n) => {
                    &&& expected_read_err(self.state(), self.user@, id) is None
                    &&& self.state().contains_key(id)
                    &&& n.id == self.state()[id].id
                    &&& n.owner@ == self.state()[id].owner
                    &&& n.name@ == self.state()[id].name
                    &&& n.content@ == expand_refs(
                        self.state()[id].content,
                        spec_references(self.state()[id].content),
                        self.state(),
                    )
                },
                Err(e) => {
                    ||| is_backend_failure(e)
                    ||| Some(e) == expected_read_err(self.state(), self.user@, id)
                    ||| (e matches NoteError::Validation(NoteValidationError::ReferenceNotFound(rid))
                        && spec_references(self.state()[id].content).contains(rid)
                        && self.state().contains_key(id) && self.state()[id].owner == self.user@)
                },
            },
    {
        let ghost m = self.state();
        let ghost user_v = self.user@;
        let note = match self.repo.read(id) {
            Ok(n) => n,
            Err(e) => {
                return Err(e);
            },
        };
        // Only allow owner read access.
        if !self.user.eq(&note.owner) {
            return Err(NoteError::Validation(NoteValidationError::PermissionDenied(id)));
        }
        // Expand references: [[1]] becomes the quoted content of note 1.
        let refs = self.get_references(note.content.as_str());
        let ghost all_refs = refs@;
        proof {
            assert(all_refs.skip(0) =~= all_refs);
        }
        let n = refs.len();
        let mut cur = note.content.clone();
        let mut idx: usize = 0;
        while idx < n
            invariant
                self.wf(),
                m == self.state(),
                user_v == self.user@,
                m.contains_key(id),
                m[id].owner == user_v,
                all_refs == refs@,
                all_refs == spec_references(m[id].content),
                n == refs@.len(),
                idx <= n,
                expand_refs(cur@, all_refs.skip(idx as int), m) == expand_refs(
                    m[id].content,
                    all_refs,
                    m,
                ),
                first_missing_ref(all_refs.skip(idx as int), m) == first_missing_ref(all_refs, m),
            decreases n - idx,
        {
            let rid = refs[idx];
            proof {
                assert(all_refs.skip(idx as int)[0] == rid);
            }
            match self.repo.read(rid) {
                Ok(ref_note) => {
                    let placeholder = make_placeholder(rid);
                    let expansion = make_expansion(&ref_note);
                    proof {
                        assert(placeholder@.len() > 0);
                        assert(all_refs.skip(idx as int).drop_first() =~= all_refs.skip(
                            idx as int + 1,
                        ));
                    }
                    let next = replace_str(cur.as_str(), placeholder.as_str(), expansion.as_str());
                    cur = next;
                },
                Err(e2) => {
                    proof {
                        assert(all_refs[idx as int] == rid);
                        if !m.contains_key(rid) {
                            assert(first_missing_ref(all_refs.skip(idx as int), m) == Some(
                                NoteError::Validation(NoteValidationError::ReferenceNotFound(rid)),
                            ));
                        }
                    }
                    return Err(NoteError::Validation(NoteValidationError::ReferenceNotFound(rid)));
                },
            }
            idx += 1;
        }
        proof {
            assert(all_refs.skip(n as int) =~= Seq::<u16>::empty());
        }
        Ok(Note { id: note.id, owner: note.owner, name: note.name, content: cur })
    }

    /// Updates an existing note, replacing its name and content with the
    /// fields of `note` after validating them and re-validating every
    /// reference the new content makes.
    pub fn update_note(&mut self, note: Note) -> (r: Result<()>)
        requires
            old(self).wf(),
        ensures
            final(self).wf(),
            final(self).user == old(self).user,
            final(self).max_name_size == old(self).max_name_size,
            final(self).max_content_size == old(self).max_content_size,
            final(self).max_note_count == old(self).max_note_count,
            spec_validate_name(note.name@, old(self).max_name_size) matches Err(e) ==> r == Err::<(), NoteError>(e),
            spec_validate_name(note.name@, old(self).max_name_size) is Ok ==> (
            spec_validate_content(
                note.content@,
                old(self).max_content_size,
            ) matches Err(e) ==> r == Err::<(), NoteError>(e)),
            match r {
                Ok(u) => {
                    &&& expected_update_err(
                        old(self).state(),
                        old(self).user@,
                        note@,
                        old(self).max_name_size,
                        old(self).max_content_size,
                    ) is None
                    &&& final(self).state() == old(self).state().insert(note.id, note@)
                },
                Err(e) => final(self).state() == old(self).state() && (is_backend_failure(e)
                    || Some(e) == expected_update_err(
                    old(self).state(),
                    old(self).user@,
                    note@,
                    old(self).max_name_size,
                    old(self).max_content_size,
                )),
            },
    {
        let ghost m = self.state();
        let ghost user_v = self.user@;
        if let Err(e) = Self::validate_name(note.name.as_str(), self.max_name_size) {
            return Err(e);
        }
        if let Err(e) = Self::validate_content(note.content.as_str(), self.max_content_size) {
            return Err(e);
        }
        let notes = match self.repo.list() {
            Ok(l) => l,
            Err(e) => {
                return Err(e);
            },
        };
        // Make sure all referenced notes exist and are owned by the acting
        // user.
        let refs = self.get_references(note.content.as_str());
        let ghost all_refs = refs@;
        proof {
            assert(all_refs.skip(0) =~= all_refs);
        }
        let n = refs.len();
        let mut idx: usize = 0;
        while idx < n
            invariant
                self == old(self),
                self.wf(),
                m == self.state(),
                user_v == self.user@,
                all_refs == refs@,
                all_refs == spec_references(note@.content),
                spec_validate_name(note@.name, self.max_name_size) == Ok::<(), NoteError>(()),
                spec_validate_content(note@.content, self.max_content_size) == Ok::<
                    (),
                    NoteError,
                >(()),
                n == refs@.len(),
                idx <= n,
                is_listing(notes@, m),
                first_ref_error(all_refs.skip(idx as int), m, user_v) == first_ref_error(
                    all_refs,
                    m,
                    user_v,
                ),
            decreases n - idx,
        {
            proof {
                lemma_listing_has(notes@, m);
            }
            let rid = refs[idx];
            proof {
                assert(all_refs.skip(idx as int)[0] == rid);
            }
            if !contains_id(&notes, rid) {
                return Err(NoteError::Validation(NoteValidationError::ReferenceNotFound(rid)));
            }
            // Make sure the user is allowed to read the referenced note.
            let partial_note = match self.get_partial_note(rid) {
                Ok(p) => p,
                Err(e) => {
                    return Err(e);
                },
            };
            if !partial_note.owner.eq(&self.user) {
                return Err(NoteError::Validation(NoteValidationError::PermissionDenied(rid)));
            }
            proof {
                assert(all_refs.skip(idx as int).drop_first() =~= all_refs.skip(idx as int + 1));
            }
            idx += 1;
        }
        proof {
            assert(all_refs.skip(n as int) =~= Seq::<u16>::empty());
            lemma_listing_has(notes@, m);
        }
        // Make sure the note being updated actually exists.
        if contains_id(&notes, note.id) {
            self.repo.update(note)
        } else {
            Err(NoteError::Validation(NoteValidationError::NoteNotFound(note.id)))
        }
    }

    /// Deletes the note stored under `id`, but only if no other note still
    /// references it: every other note's content is scanned, and if any holds
    /// a reference token to `id` the deletion fails, listing every
    /// referencing note. A note that only references itself is never blocked.
    /// Only the owner may delete a note.
    pub fn delete_note(&mut self, id: u16) -> (r: Result<()>)
        requires
            old(self).wf(),
        ensures
            final(self).wf(),
            final(self).user == old(self).user,
            final(self).max_name_size == old(self).max_name_size,
            final(self).max_content_size == old(self).max_content_size,
            final(self).max_note_count == old(self).max_note_count,
            match r {
                Ok(u) => {
                    &&& old(self).state().contains_key(id)
                    &&& old(self).state()[id].owner == old(self).user@
                    &&& backlink_ids(old(self).state(), id) =~= Set::<u16>::empty()
                    &&& final(self).state() == old(self).state().remove(id)
                },
                Err(e) => final(self).state() == old(self).state() && {
                    ||| is_backend_failure(e)
                    ||| (e == NoteError::Validation(NoteValidationError::PermissionDenied(id))
                        && old(self).state().contains_key(id) && old(self).state()[id].owner != old(
                        self,
                    ).user@)
                    ||| (match e {
                        NoteError::Validation(NoteValidationError::NoteIsReferenced(v)) => {
                            &&& v@.len() > 0
                            &&& strictly_ascending(v@)
                            &&& forall|p: u16|
                                v@.contains(p) <==> backlink_ids(old(self).state(), id).contains(p)
                            &&& (old(self).state().contains_key(id) ==> old(self).state()[id].owner
                                == old(self).user@)
                        },
                        _ => false,
                    })
                },
            },
    {
        let ghost m = self.state();
        let ghost user_v = self.user@;
        // Check whether any other note references this note; do not stop at
        // the first backlink, find all of them.
        let notes = match self.list_notes() {
            Ok(l) => l,
            Err(e) => {
                return Err(e);
            },
        };
        let n = notes.len();
        let mut backlinks: Vec<u16> = Vec::new();
        let mut idx: usize = 0;
        proof {
            assert(notes@.take(0) =~= Seq::<PartialNote>::empty());
        }
        while idx < n
            invariant
                self == old(self),
                self.wf(),
                m == self.state(),
                user_v == self.user@,
                is_listing(notes@, m),
                n == notes@.len(),
                idx <= n,
                backlinks@ == backlinks_of_listing(notes@.take(idx as int), m, id),
                (exists|j: int| 0 <= j < idx && (#[trigger] notes@[j]).id == id) ==> (
                m.contains_key(id) && m[id].owner == user_v),
            decreases n - idx,
        {
            proof {
                assert(notes@.take(idx as int + 1).drop_last() =~= notes@.take(idx as int));
                assert(notes@.take(idx as int + 1).last() == notes@[idx as int]);
                assert(m.contains_key(notes@[idx as int].id) && notes@[idx as int]@ == partial_view(
                    m[notes@[idx as int].id],
                ));
            }
            let partial = &notes[idx];
            if partial.id == id {
                // A note's reference to itself does not prevent deletion.
                // While here: only the owner may delete the note.
                if !partial.owner.eq(&self.user) {
                    return Err(NoteError::Validation(NoteValidationError::PermissionDenied(id)));
                }
            } else {
                // Read the note's content and record its ID if it holds a
                // backlink to the note being deleted.
                let full = match self.repo.read(partial.id) {
                    Ok(f) => f,
                    Err(e) => {
                        return Err(e);
                    },
                };
                let refs = self.get_references(full.content.as_str());
                if vec_contains_u16(&refs, id) {
                    backlinks.push(partial.id);
                }
            }
            idx += 1;
        }
        proof {
            assert(notes@.take(n as int) =~= notes@);
            lemma_backlinks_listing(notes@, m, id);
            lemma_listing_has(notes@, m);
        }
        if backlinks.len() == 0 {
            proof {
                assert forall|p: u16| !(#[trigger] backlink_ids(m, id).contains(p)) by {
                    if backlink_ids(m, id).contains(p) {
                        assert(listing_has(notes@, p));
                        assert(backlinks@.contains(p));
                    }
                }
                assert(backlink_ids(m, id) =~= Set::<u16>::empty());
            }
            self.repo.delete(id)
        } else {
            Err(NoteError::Validation(NoteValidationError::NoteIsReferenced(backlinks)))
        }
    }

    /// Creates the privileged seed note: owner and name are fixed, the
    /// content is the configured secret (or a placeholder when it is unset),
    /// and no validation or reference checking is applied. Only the note
    /// count is checked, as on any create.
    pub fn create_flag_note(&mut self, flag: Option<String>) -> (r: Result<u16>)
        requires
            old(self).wf(),
            old(self).state().dom().len() > old(self).max_note_count || spec_first_free(
                old(self).state(),
                old(self).max_note_count,
            ) is Some,
        ensures
            final(self).wf(),
            final(self).user == old(self).user,
            final(self).max_name_size == old(self).max_name_size,
            final(self).max_content_size == old(self).max_content_size,
            final(self).max_note_count == old(self).max_note_count,
            match r {
                Ok(id) => {
                    &&& old(self).state().dom().len() <= old(self).max_note_count
                    &&& Some(id) == spec_first_free(old(self).state(), old(self).max_note_count)
                    &&& final(self).state() == old(self).state().insert(
                        id,
                        NoteView {
                            id,
                            owner: ("Norske N\u{f8}kkelsnikere")@,
                            name: ("flag")@,
                            content: match flag {
                                Some(f) => f@,
                                None => ("NNSCTF{placeholder}")@,
                            },
                        },
                    )
                },
                Err(e) => final(self).state() == old(self).state() && (is_backend_failure(e) || (e
                    == NoteError::Validation(
                    NoteValidationError::NoteCountRateLimit { max: old(self).max_note_count },
                ) && old(self).state().dom().len() > old(self).max_note_count)),
            },
    {
        let ghost m = self.state();
        let content: String = match flag {
            Some(f) => f,
            None => ("NNSCTF{placeholder}").to_owned(),
        };
        // Make sure not too many notes are created.
        let notes = match self.repo.list() {
            Ok(l) => l,
            Err(e) => {
                return Err(e);
            },
        };
        proof {
            lemma_listing_len(notes@, m);
            lemma_listing_has(notes@, m);
        }
        if notes.len() > self.max_note_count as usize {
            return Err(
                NoteError::Validation(
                    NoteValidationError::NoteCountRateLimit { max: self.max_note_count },
                ),
            );
        }
        // Find the lowest free ID.
        let available_id = match find_free_id(&notes, self.max_note_count) {
            Some(id) => {
                proof {
                    assert(!m.contains_key(id));
                    assert forall|k: u16| k < id implies m.contains_key(k) by {
                        assert(listing_has(notes@, k));
                    }
                    lemma_first_free_some(m, self.max_note_count, 0, id);
                }
                id
            },
            None => {
                proof {
                    assert forall|k: u16| k < self.max_note_count implies m.contains_key(k) by {
                        assert(listing_has(notes@, k));
                    }
                    lemma_first_free_none(m, self.max_note_count, 0);
                }
                return vstd::pervasive::unreached();
            },
        };
        // The seed note is owned by a fixed non-user principal.
        let note = Note {
            id: available_id,
            owner: ("Norske N\u{f8}kkelsnikere").to_owned(),
            name: ("flag").to_owned(),
            content,
        };
        self.repo.create(note)
    }
}

} // verus!
