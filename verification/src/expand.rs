//! Reference expansion: replacing each `[[id]]` placeholder in a note's
//! content with a quoted block showing the referenced note.
use vstd::prelude::*;
use vstd::string::StringExecFns;

use crate::text::{chars_of, dec_digits, push_char, push_dec_digits};
use crate::{Note, NoteView};

verus! {

/// The text `s` with every occurrence of `pat` replaced by `rep`, scanning
/// left to right and never rescanning replaced text, exactly as
/// `str::replace` does.
pub open spec fn spec_replace(s: Seq<char>, pat: Seq<char>, rep: Seq<char>) -> Seq<char>
    decreases s.len() when pat.len() > 0
{
    if s.len() < pat.len() {
        s
    } else if s.take(pat.len() as int) == pat {
        rep + spec_replace(s.skip(pat.len() as int), pat, rep)
    } else {
        seq![s[0]] + spec_replace(s.skip(1), pat, rep)
    }
}

/// Compares the characters of `v` starting at `at` with all of `p`.
fn match_at(v: &Vec<char>, p: &Vec<char>, at: usize) -> (r: bool)
    requires
        at + p@.len() <= v@.len(),
    ensures
        r == (v@.subrange(at as int, at + p@.len()) == p@),
{
    let plen = p.len();
    let vlen = v.len();
    let mut k: usize = 0;
    while k < plen
        invariant
            at + plen <= vlen,
            vlen == v@.len(),
            plen == p@.len(),
            k <= plen,
            forall|t: int| 0 <= t < k ==> v@[at + t] == p@[t],
        decreases plen - k,
    {
        assert(at + k < v@.len());
        if v[at + k] != p[k] {
            assert(v@.subrange(at as int, at + p@.len())[k as int] != p@[k as int]);
            return false;
        }
        k += 1;
    }
    proof {
        assert(v@.subrange(at as int, at + p@.len()) =~= p@);
    }
    true
}

/// The text `s` with every occurrence of `pat` replaced by `rep`, as
/// `str::replace` computes it.
pub fn replace_str(s: &str, pat: &str, rep: &str) -> (r: String)
    requires
        pat@.len() > 0,
    ensures
        r@ == spec_replace(s@, pat@, rep@),
{
    let sv = chars_of(s);
    let pv = chars_of(pat);
    let n = sv.len();
    let plen = pv.len();
    let mut out = String::new();
    let mut i: usize = 0;
    proof {
        assert(s@.skip(0) =~= s@);
    }
    while i < n
        invariant
            sv@ == s@,
            pv@ == pat@,
            n == sv@.len(),
            plen == pv@.len(),
            plen > 0,
            i <= n,
            out@ + spec_replace(s@.skip(i as int), pat@, rep@) == spec_replace(s@, pat@, rep@),
        decreases n - i,
    {
        let ghost tail = s@.skip(i as int);
        if plen <= n - i && match_at(&sv, &pv, i) {
            proof {
                assert(tail.take(plen as int) =~= s@.subrange(i as int, i + plen));
                assert(tail.skip(plen as int) =~= s@.skip(i + plen));
                assert((out@ + rep@) + spec_replace(s@.skip(i + plen), pat@, rep@) =~= out@ + (rep@
                    + spec_replace(tail.skip(plen as int), pat@, rep@)));
            }
            out.append(rep);
            i += plen;
        } else {
            proof {
                assert(tail[0] == s@[i as int]);
                assert(tail.skip(1) =~= s@.skip(i as int + 1));
                if i + plen <= n {
                    assert(tail.take(plen as int) =~= s@.subrange(i as int, i + plen));
                    assert(tail.take(plen as int) != pat@);
                } else {
                    assert(tail.len() < plen);
                    assert(s@.skip(i as int + 1).len() < plen);
                    assert(spec_replace(s@.skip(i as int + 1), pat@, rep@) == s@.skip(
                        i as int + 1,
                    ));
                    assert(tail =~= seq![s@[i as int]] + s@.skip(i as int + 1));
                }
                assert(out@.push(s@[i as int]) + spec_replace(s@.skip(i as int + 1), pat@, rep@)
                    =~= out@ + (seq![s@[i as int]] + spec_replace(
                    s@.skip(i as int + 1),
                    pat@,
                    rep@,
                )));
            }
            push_char(&mut out, sv[i]);
            i += 1;
        }
    }
    proof {
        assert(s@.skip(n as int) =~= Seq::<char>::empty());
        assert(out@ + spec_replace(s@.skip(n as int), pat@, rep@) =~= out@);
    }
    out
}

/// The placeholder text `[[id]]` that a reference token leaves in content.
pub open spec fn spec_placeholder(id: u16) -> Seq<char> {
    seq!['[', '['] + dec_digits(id as int) + seq![']', ']']
}

/// The quoted block that replaces a placeholder to the referenced note `n`:
/// `>>> #<id> <name>`, a bare quote line, then the note's content with every
/// newline continued as a quote.
pub open spec fn spec_expansion(n: NoteView) -> Seq<char> {
    seq!['>', '>', '>', ' ', '#'] + dec_digits(n.id as int) + seq![' '] + n.name + seq![
        '\n',
        '>',
        '\n',
        '>',
        ' ',
    ] + spec_replace(n.content, seq!['\n'], seq!['\n', '>', ' '])
}

/// Builds the placeholder text `[[id]]`.
pub fn make_placeholder(id: u16) -> (r: String)
    ensures
        r@ == spec_placeholder(id),
{
    let mut out = String::new();
    push_char(&mut out, '[');
    push_char(&mut out, '[');
    push_dec_digits(&mut out, id);
    push_char(&mut out, ']');
    push_char(&mut out, ']');
    proof {
        assert(out@ =~= spec_placeholder(id));
    }
    out
}

/// Builds the quoted block that stands in for the referenced note `n`.
pub fn make_expansion(n: &Note) -> (r: String)
    ensures
        r@ == spec_expansion(n@),
{
    let mut out = String::new();
    push_char(&mut out, '>');
    push_char(&mut out, '>');
    push_char(&mut out, '>');
    push_char(&mut out, ' ');
    push_char(&mut out, '#');
    push_dec_digits(&mut out, n.id);
    push_char(&mut out, ' ');
    out.append(n.name.as_str());
    push_char(&mut out, '\n');
    push_char(&mut out, '>');
    push_char(&mut out, '\n');
    push_char(&mut out, '>');
    push_char(&mut out, ' ');
    proof {
        reveal_strlit("\n");
        reveal_strlit("\n> ");
        assert(("\n")@ =~= seq!['\n']);
        assert(("\n> ")@ =~= seq!['\n', '>', ' ']);
    }
    let quoted = replace_str(n.content.as_str(), "\n", "\n> ");
    out.append(quoted.as_str());
    proof {
        assert(out@ =~= spec_expansion(n@));
    }
    out
}

/// `text` after expanding the references `refs` in order: each step replaces
/// every occurrence of the placeholder `[[rid]]` with the quoted block of the
/// note `m[rid]`, later steps seeing the text earlier steps produced.
pub open spec fn expand_refs(text: Seq<char>, refs: Seq<u16>, m: Map<u16, NoteView>) -> Seq<char>
    decreases refs.len(),
{
    if refs.len() == 0 {
        text
    } else {
        expand_refs(
            spec_replace(text, spec_placeholder(refs[0]), spec_expansion(m[refs[0]])),
            refs.drop_first(),
            m,
        )
    }
}

} // verus!
