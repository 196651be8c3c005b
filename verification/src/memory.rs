//! An in-memory storage backend: the reference implementation of the
//! `NoteBackend` contract, with records kept in a vector sorted by ID.
use vstd::prelude::*;

use crate::{
    partial_view, BackendError, Note, NoteBackend, NoteError, NoteView, PartialNote, Result,
};

verus! {

/// The map stored by a sequence of records: later records shadow earlier ones
/// with the same ID, though a well-formed backend never holds two.
pub open spec fn map_of(s: Seq<Note>) -> Map<u16, NoteView>
    decreases s.len(),
{
    if s.len() == 0 {
        Map::empty()
    } else {
        map_of(s.drop_last()).insert(s.last().id, s.last()@)
    }
}

/// Record IDs strictly ascend, so each ID is stored at most once.
pub open spec fn sorted_by_id(s: Seq<Note>) -> bool {
    forall|i: int, j: int| 0 <= i < j < s.len() ==> (#[trigger] s[i]).id < (#[trigger] s[j]).id
}

proof fn lemma_map_of_contains(s: Seq<Note>)
    ensures
        forall|id: u16|
            map_of(s).contains_key(id) <==> exists|i: int|
                0 <= i < s.len() && (#[trigger] s[i]).id == id,
    decreases s.len(),
{
    if s.len() > 0 {
        lemma_map_of_contains(s.drop_last());
        assert forall|id: u16| map_of(s).contains_key(id) implies exists|i: int|
            0 <= i < s.len() && (#[trigger] s[i]).id == id by {
            if id == s.last().id {
                assert(s[s.len() - 1].id == id);
            } else {
                assert(map_of(s.drop_last()).contains_key(id));
                let i = choose|i: int|
                    0 <= i < s.drop_last().len() && (#[trigger] s.drop_last()[i]).id == id;
                assert(s.drop_last()[i] == s[i]);
                assert(s[i].id == id);
            }
        }
        assert forall|id: u16|
            exists|i: int| 0 <= i < s.len() && (#[trigger] s[i]).id == id implies map_of(
            s,
        ).contains_key(id) by {
            let i = choose|i: int| 0 <= i < s.len() && (#[trigger] s[i]).id == id;
            if i < s.len() - 1 {
                assert(s.drop_last()[i] == s[i]);
                assert(s.drop_last()[i].id == id);
                assert(map_of(s.drop_last()).contains_key(id));
                assert(map_of(s) == map_of(s.drop_last()).insert(s.last().id, s.last()@));
            } else {
                assert(id == s.last().id);
            }
        }
    }
}

proof fn lemma_map_of_index(s: Seq<Note>, i: int)
    requires
        sorted_by_id(s),
        0 <= i < s.len(),
    ensures
        map_of(s).contains_key(s[i].id),
        map_of(s)[s[i].id] == s[i]@,
    decreases s.len(),
{
    if i == s.len() - 1 {
        assert(map_of(s) == map_of(s.drop_last()).insert(s.last().id, s.last()@));
    } else {
        assert(sorted_by_id(s.drop_last()));
        assert(s.drop_last()[i] == s[i]);
        lemma_map_of_index(s.drop_last(), i);
        assert(s[i].id != s.last().id);
    }
}

/// A storage backend that keeps every record in memory. It implements the
/// full backend contract and is the one whose behaviour is verified end to
/// end; the durable backends satisfy the same contract by construction.
pub struct MemoryBackend {
    entries: Vec<Note>,
}

impl MemoryBackend {
    /// An empty store.
    pub fn new() -> (r: MemoryBackend)
        ensures
            r.inv(),
            r.notes() == Map::<u16, NoteView>::empty(),
    {
        MemoryBackend { entries: Vec::new() }
    }

    /// The position of the record with ID `id`, if one is stored.
    fn find(&self, id: u16) -> (r: Option<usize>)
        ensures
            match r {
                Some(i) => i < self.entries@.len() && self.entries@[i as int].id == id,
                None => forall|i: int|
                    0 <= i < self.entries@.len() ==> (#[trigger] self.entries@[i]).id != id,
            },
    {
        let n = self.entries.len();
        let mut i: usize = 0;
        while i < n
            invariant
                n == self.entries@.len(),
                i <= n,
                forall|j: int| 0 <= j < i ==> (#[trigger] self.entries@[j]).id != id,
            decreases n - i,
        {
            if self.entries[i].id == id {
                return Some(i);
            }
            i += 1;
        }
        None
    }
}

impl NoteBackend for MemoryBackend {
    closed spec fn notes(&self) -> Map<u16, NoteView> {
        map_of(self.entries@)
    }

    closed spec fn inv(&self) -> bool {
        sorted_by_id(self.entries@)
    }

    fn create(&mut self, note: Note) -> (r: Result<u16>)
        ensures
            r is Ok <==> !old(self).notes().contains_key(note.id),
    {
        let ghost s0 = self.entries@;
        if let Some(i) = self.find(note.id) {
            proof {
                lemma_map_of_index(s0, i as int);
            }
            return Err(NoteError::Backend(BackendError::Duplicate));
        }
        proof {
            lemma_map_of_contains(s0);
        }
        // Insert before the first record with a larger ID, keeping the order.
        let n = self.entries.len();
        let mut k: usize = 0;
        while k < n && self.entries[k].id < note.id
            invariant
                n == self.entries@.len(),
                k <= n,
                self.entries@ == s0,
                forall|j: int| 0 <= j < k ==> (#[trigger] self.entries@[j]).id < note.id,
            decreases n - k,
        {
            k += 1;
        }
        proof {
            assert forall|j: int| k <= j < s0.len() implies (#[trigger] s0[j]).id > note.id by {
                if j > k {
                    assert(s0[k as int].id < s0[j].id);
                }
                assert(s0[j].id != note.id);
            }
        }
        let id = note.id;
        self.entries.insert(k, note);
        proof {
            let s1 = self.entries@;
            assert(sorted_by_id(s1));
            lemma_map_of_contains(s0);
            lemma_map_of_contains(s1);
            assert forall|key: u16| #[trigger]
                map_of(s1).contains_key(key) implies map_of(s0).insert(id, s1[k as int]@).contains_key(
                key,
            ) by {
                let i = choose|i: int| 0 <= i < s1.len() && (#[trigger] s1[i]).id == key;
                if i < k {
                    assert(s0[i].id == key);
                } else if i > k {
                    assert(s0[i - 1].id == key);
                }
            }
            assert forall|key: u16| #[trigger]
                map_of(s0).insert(id, s1[k as int]@).contains_key(key) implies map_of(
                s1,
            ).contains_key(key) && map_of(s1)[key] == map_of(s0).insert(id, s1[k as int]@)[key] by {
                if key == id {
                    lemma_map_of_index(s1, k as int);
                } else {
                    let i = choose|i: int| 0 <= i < s0.len() && (#[trigger] s0[i]).id == key;
                    let i1 = if i < k {
                        i
                    } else {
                        i + 1
                    };
                    assert(s1[i1] == s0[i]);
                    lemma_map_of_index(s1, i1);
                    lemma_map_of_index(s0, i);
                }
            }
            assert(map_of(s1) =~= map_of(s0).insert(id, s1[k as int]@));
        }
        Ok(id)
    }

    fn read(&self, id: u16) -> (r: Result<Note>)
        ensures
            r is Ok <==> self.notes().contains_key(id),
    {
        match self.find(id) {
            Some(i) => {
                proof {
                    lemma_map_of_index(self.entries@, i as int);
                }
                Ok(self.entries[i].duplicate())
            },
            None => {
                proof {
                    lemma_map_of_contains(self.entries@);
                }
                Err(NoteError::Backend(BackendError::NoteNotFound(id)))
            },
        }
    }

    fn read_partial(&self, id: u16) -> (r: Result<PartialNote>)
        ensures
            r is Ok <==> self.notes().contains_key(id),
    {
        match self.find(id) {
            Some(i) => {
                proof {
                    lemma_map_of_index(self.entries@, i as int);
                }
                let n = &self.entries[i];
                Ok(PartialNote { id: n.id, owner: n.owner.clone(), name: n.name.clone() })
            },
            None => {
                proof {
                    lemma_map_of_contains(self.entries@);
                }
                Err(NoteError::Backend(BackendError::NoteNotFound(id)))
            },
        }
    }

    fn update(&mut self, note: Note) -> (r: Result<()>)
        ensures
            r is Ok <==> old(self).notes().contains_key(note.id),
    {
        let ghost s0 = self.entries@;
        match self.find(note.id) {
            Some(i) => {
                proof {
                    lemma_map_of_index(s0, i as int);
                }
                let id = note.id;
                self.entries.remove(i);
                self.entries.insert(i, note);
                proof {
                    let s1 = self.entries@;
                    assert forall|a: int, b: int| 0 <= a < b < s1.len() implies (
                    #[trigger] s1[a]).id < (#[trigger] s1[b]).id by {
                        assert(s1[a].id == s0[a].id);
                        assert(s1[b].id == s0[b].id);
                        assert(s0[a].id < s0[b].id);
                    }
                    lemma_map_of_contains(s0);
                    lemma_map_of_contains(s1);
                    assert forall|key: u16| #[trigger]
                        map_of(s1).contains_key(key) implies map_of(s0).insert(
                        id,
                        s1[i as int]@,
                    ).contains_key(key) by {
                        let a = choose|a: int| 0 <= a < s1.len() && (#[trigger] s1[a]).id == key;
                        if a != i {
                            assert(s0[a].id == key);
                        }
                    }
                    assert forall|key: u16| #[trigger]
                        map_of(s0).insert(id, s1[i as int]@).contains_key(key) implies map_of(
                        s1,
                    ).contains_key(key) && map_of(s1)[key] == map_of(s0).insert(
                        id,
                        s1[i as int]@,
                    )[key] by {
                        if key == id {
                            lemma_map_of_index(s1, i as int);
                        } else {
                            let a = choose|a: int|
                                0 <= a < s0.len() && (#[trigger] s0[a]).id == key;
                            assert(s1[a] == s0[a]);
                            lemma_map_of_index(s1, a);
                            lemma_map_of_index(s0, a);
                        }
                    }
                    assert(map_of(s1) =~= map_of(s0).insert(id, s1[i as int]@));
                }
                Ok(())
            },
            None => {
                proof {
                    lemma_map_of_contains(s0);
                }
                Err(NoteError::Backend(BackendError::NoteNotFound(note.id)))
            },
        }
    }

    fn delete(&mut self, id: u16) -> (r: Result<()>)
        ensures
            r is Ok <==> old(self).notes().contains_key(id),
    {
        let ghost s0 = self.entries@;
        match self.find(id) {
            Some(i) => {
                proof {
                    lemma_map_of_index(s0, i as int);
                }
                self.entries.remove(i);
                proof {
                    let s1 = self.entries@;
                    assert forall|a: int, b: int| 0 <= a < b < s1.len() implies (
                    #[trigger] s1[a]).id < (#[trigger] s1[b]).id by {
                        let a0 = if a < i {
                            a
                        } else {
                            a + 1
                        };
                        let b0 = if b < i {
                            b
                        } else {
                            b + 1
                        };
                        assert(s1[a] == s0[a0]);
                        assert(s1[b] == s0[b0]);
                        assert(s0[a0].id < s0[b0].id);
                    }
                    lemma_map_of_contains(s0);
                    lemma_map_of_contains(s1);
                    assert forall|key: u16| #[trigger]
                        map_of(s1).contains_key(key) implies map_of(s0).remove(id).contains_key(
                        key,
                    ) by {
                        let a = choose|a: int| 0 <= a < s1.len() && (#[trigger] s1[a]).id == key;
                        let a0 = if a < i {
                            a
                        } else {
                            a + 1
                        };
                        assert(s0[a0].id == key);
                        assert(key != id);
                    }
                    assert forall|key: u16| #[trigger]
                        map_of(s0).remove(id).contains_key(key) implies map_of(s1).contains_key(
                        key,
                    ) && map_of(s1)[key] == map_of(s0).remove(id)[key] by {
                        let a = choose|a: int| 0 <= a < s0.len() && (#[trigger] s0[a]).id == key;
                        let a1 = if a < i {
                            a
                        } else {
                            a - 1
                        };
                        assert(s1[a1] == s0[a]);
                        lemma_map_of_index(s1, a1);
                        lemma_map_of_index(s0, a);
                    }
                    assert(map_of(s1) =~= map_of(s0).remove(id));
                }
                Ok(())
            },
            None => {
                proof {
                    lemma_map_of_contains(s0);
                }
                Err(NoteError::Backend(BackendError::NoteNotFound(id)))
            },
        }
    }

    fn list(&self) -> (r: Result<Vec<PartialNote>>)
        ensures
            r is Ok,
    {
        let n = self.entries.len();
        let mut out: Vec<PartialNote> = Vec::new();
        let mut i: usize = 0;
        while i < n
            invariant
                n == self.entries@.len(),
                i <= n,
                sorted_by_id(self.entries@),
                out@.len() == i,
                forall|j: int| 0 <= j < i ==> (#[trigger] out@[j])@ == partial_view(
                    self.entries@[j]@,
                ) && out@[j].id == self.entries@[j].id,
            decreases n - i,
        {
            let e = &self.entries[i];
            out.push(PartialNote { id: e.id, owner: e.owner.clone(), name: e.name.clone() });
            i += 1;
        }
        proof {
            let s = self.entries@;
            lemma_map_of_contains(s);
            assert forall|j: int| 0 <= j < out@.len() implies map_of(s).contains_key(
                (#[trigger] out@[j]).id,
            ) && out@[j]@ == partial_view(map_of(s)[out@[j].id]) by {
                lemma_map_of_index(s, j);
            }
            assert forall|id: u16| #[trigger] map_of(s).contains_key(id) implies exists|j: int|
                0 <= j < out@.len() && (#[trigger] out@[j]).id == id by {
                let a = choose|a: int| 0 <= a < s.len() && (#[trigger] s[a]).id == id;
                assert(out@[a].id == id);
            }
        }
        Ok(out)
    }
}

} // verus!
