//! The reference resolver: pure logic that extracts the note IDs referenced
//! inside a content string.
//!
//! Content is split on whitespace; a token is a reference exactly when it
//! starts with `[[`, ends with `]]`, and the text between the brackets parses
//! as a `u16`. Malformed tokens are skipped silently. Results keep token
//! order, and duplicates are preserved.
use vstd::prelude::*;

use crate::text::{chars_of, is_space, is_space_char, parse_u16_range, spec_parse_u16};

verus! {

/// The position just past the whitespace-delimited token starting at `i`: the
/// first index at or after `i` holding whitespace, or the end of the string.
pub open spec fn token_end(s: Seq<char>, i: int) -> int
    decreases s.len() - i when 0 <= i <= s.len()
{
    if i >= s.len() {
        s.len() as int
    } else if is_space_char(s[i]) {
        i
    } else {
        token_end(s, i + 1)
    }
}

pub proof fn lemma_token_end_bounds(s: Seq<char>, i: int)
    requires
        0 <= i <= s.len(),
    ensures
        i <= token_end(s, i) <= s.len(),
        forall|k: int| i <= k < token_end(s, i) ==> !is_space_char(#[trigger] s[k]),
        token_end(s, i) < s.len() ==> is_space_char(s[token_end(s, i)]),
    decreases s.len() - i,
{
    if i < s.len() && !is_space_char(s[i]) {
        lemma_token_end_bounds(s, i + 1);
    }
}

proof fn lemma_token_end_eq(s: Seq<char>, i: int, j: int)
    requires
        0 <= i <= j <= s.len(),
        forall|k: int| i <= k < j ==> !is_space_char(#[trigger] s[k]),
        j < s.len() ==> is_space_char(s[j]),
    ensures
        token_end(s, i) == j,
    decreases j - i,
{
    if i < j {
        lemma_token_end_eq(s, i + 1, j);
    }
}

/// The ID a single token refers to, if it is a well-formed reference token.
pub open spec fn ref_of_token(t: Seq<char>) -> Option<u16> {
    if t.len() >= 4 && t[0] == '[' && t[1] == '[' && t[t.len() - 2] == ']' && t[t.len() - 1]
        == ']' {
        spec_parse_u16(t.subrange(2, t.len() - 2))
    } else {
        None
    }
}

#[via_fn]
proof fn refs_from_decreases(s: Seq<char>, i: int) {
    if 0 <= i < s.len() && !is_space_char(s[i]) {
        lemma_token_end_bounds(s, i);
    }
}

/// The references found in `s` from position `i` on, in token order.
pub open spec fn refs_from(s: Seq<char>, i: int) -> Seq<u16>
    decreases s.len() - i when 0 <= i <= s.len() via refs_from_decreases
{
    if i >= s.len() {
        Seq::empty()
    } else if is_space_char(s[i]) {
        refs_from(s, i + 1)
    } else {
        match ref_of_token(s.subrange(i, token_end(s, i))) {
            Some(id) => seq![id] + refs_from(s, token_end(s, i)),
            None => refs_from(s, token_end(s, i)),
        }
    }
}

/// All references found in `s`, in token order, duplicates preserved.
pub open spec fn spec_references(s: Seq<char>) -> Seq<u16> {
    refs_from(s, 0)
}

/// Extracts the IDs of every reference token (`[[id]]`) in `s`, in order,
/// duplicates preserved; malformed tokens are skipped.
pub fn extract_references(s: &str) -> (r: Vec<u16>)
    ensures
        r@ == spec_references(s@),
{
    let v = chars_of(s);
    let n = v.len();
    let mut out: Vec<u16> = Vec::new();
    let mut i: usize = 0;
    while i < n
        invariant
            v@ == s@,
            n == v@.len(),
            i <= n,
            out@ + refs_from(s@, i as int) == spec_references(s@),
        decreases n - i,
    {
        if is_space(v[i]) {
            i += 1;
        } else {
            let mut j = i + 1;
            while j < n && !is_space(v[j])
                invariant
                    v@ == s@,
                    n == v@.len(),
                    i < j <= n,
                    forall|k: int| i <= k < j ==> !is_space_char(#[trigger] s@[k]),
                decreases n - j,
            {
                j += 1;
            }
            proof {
                lemma_token_end_eq(s@, i as int, j as int);
            }
            let ghost tok = s@.subrange(i as int, j as int);
            if j - i >= 4 && v[i] == '[' && v[i + 1] == '[' && v[j - 2] == ']' && v[j - 1] == ']' {
                proof {
                    assert(tok.subrange(2, tok.len() - 2) =~= s@.subrange(
                        i + 2,
                        j - 2,
                    ));
                }
                match parse_u16_range(&v, i + 2, j - 2) {
                    Some(id) => {
                        proof {
                            assert(ref_of_token(tok) == Some(id));
                            assert(out@ + seq![id] + refs_from(s@, j as int) =~= out@ + (seq![id]
                                + refs_from(s@, j as int)));
                        }
                        out.push(id);
                    },
                    None => {
                        proof {
                            assert(ref_of_token(tok) == None::<u16>);
                        }
                    },
                }
            } else {
                proof {
                    assert(ref_of_token(tok) == None::<u16>);
                }
            }
            i = j;
        }
    }
    proof {
        assert(out@ =~= spec_references(s@));
    }
    out
}

} // verus!
