//! The file backend's record format: one file per note, whose body is the
//! name line, the owner line, and then every remaining line as content. This
//! module holds the pure half of that backend — rendering a note into a file
//! body, parsing a body back, and naming the file — together with the
//! round-trip law the format obeys.
use vstd::prelude::*;
use vstd::string::StringExecFns;

use crate::text::{chars_of, dec_digits, is_blank, is_space_char, push_char, push_dec_digits, str_is_blank};
use crate::{BackendError, Note, NoteError, NoteView, PartialNote, PartialNoteView, Result};

verus! {

/// The file body of a note: name line, owner line, then the content.
pub open spec fn spec_encode_note(name: Seq<char>, owner: Seq<char>, content: Seq<char>) -> Seq<
    char,
> {
    name + seq!['\n'] + owner + seq!['\n'] + content
}

/// The index of the first newline at or after `i`, or the end of the string.
pub open spec fn first_nl_from(s: Seq<char>, i: int) -> int
    decreases s.len() - i when 0 <= i <= s.len()
{
    if i >= s.len() {
        s.len() as int
    } else if s[i] == '\n' {
        i
    } else {
        first_nl_from(s, i + 1)
    }
}

pub proof fn lemma_first_nl_bounds(s: Seq<char>, i: int)
    requires
        0 <= i <= s.len(),
    ensures
        i <= first_nl_from(s, i) <= s.len(),
        forall|k: int| i <= k < first_nl_from(s, i) ==> s[k] != '\n',
        first_nl_from(s, i) < s.len() ==> s[first_nl_from(s, i)] == '\n',
    decreases s.len() - i,
{
    if i < s.len() && s[i] != '\n' {
        lemma_first_nl_bounds(s, i + 1);
    }
}

proof fn lemma_first_nl_eq(s: Seq<char>, j: int)
    requires
        0 <= j <= s.len(),
        forall|k: int| 0 <= k < j ==> s[k] != '\n',
        j < s.len() ==> s[j] == '\n',
    ensures
        first_nl_from(s, 0) == j,
{
    lemma_first_nl_eq_from(s, 0, j);
}

proof fn lemma_first_nl_eq_from(s: Seq<char>, i: int, j: int)
    requires
        0 <= i <= j <= s.len(),
        forall|k: int| i <= k < j ==> s[k] != '\n',
        j < s.len() ==> s[j] == '\n',
    ensures
        first_nl_from(s, i) == j,
    decreases j - i,
{
    if i < j {
        lemma_first_nl_eq_from(s, i + 1, j);
    }
}

/// A line with one trailing carriage return removed, as `str::lines` strips
/// it.
pub open spec fn strip_cr(l: Seq<char>) -> Seq<char> {
    if l.len() > 0 && l.last() == '\r' {
        l.drop_last()
    } else {
        l
    }
}

#[via_fn]
proof fn spec_lines_decreases(s: Seq<char>) {
    if s.len() > 0 {
        lemma_first_nl_bounds(s, 0);
    }
}

/// The lines of `s`, as `str::lines` yields them: split on newlines, one
/// trailing carriage return stripped from each line, and no final empty line
/// after a trailing newline.
pub open spec fn spec_lines(s: Seq<char>) -> Seq<Seq<char>>
    decreases s.len() via spec_lines_decreases
{
    if s.len() == 0 {
        Seq::empty()
    } else {
        let j = first_nl_from(s, 0);
        if j == s.len() {
            seq![strip_cr(s)]
        } else {
            seq![strip_cr(s.take(j))] + spec_lines(s.skip(j + 1))
        }
    }
}

/// The lines joined back with single newlines.
pub open spec fn spec_join(ls: Seq<Seq<char>>) -> Seq<char>
    decreases ls.len(),
{
    if ls.len() == 0 {
        Seq::empty()
    } else if ls.len() == 1 {
        ls[0]
    } else {
        ls[0] + seq!['\n'] + spec_join(ls.drop_first())
    }
}

/// The note parsed from a file body: the first line is the name, the second
/// the owner, and the remaining lines joined are the content. A body with
/// fewer than two lines, or with blank content, is corrupted.
pub open spec fn spec_parse_note(id: u16, body: Seq<char>) -> Result<NoteView> {
    let ls = spec_lines(body);
    if ls.len() < 2 {
        Err(NoteError::Backend(BackendError::NoteCorrupted))
    } else {
        let content = spec_join(ls.skip(2));
        if is_blank(content) {
            Err(NoteError::Backend(BackendError::NoteCorrupted))
        } else {
            Ok(NoteView { id, owner: ls[1], name: ls[0], content })
        }
    }
}

/// The partial note parsed from a file body: only the first two lines are
/// needed.
pub open spec fn spec_parse_partial(id: u16, body: Seq<char>) -> Result<PartialNoteView> {
    let ls = spec_lines(body);
    if ls.len() < 2 {
        Err(NoteError::Backend(BackendError::NoteCorrupted))
    } else {
        Ok(PartialNoteView { id, owner: ls[1], name: ls[0] })
    }
}

/// Renders the file body of a note.
pub fn encode_note_file(note: &Note) -> (r: String)
    ensures
        r@ == spec_encode_note(note.name@, note.owner@, note.content@),
{
    let mut out = String::new();
    out.append(note.name.as_str());
    push_char(&mut out, '\n');
    out.append(note.owner.as_str());
    push_char(&mut out, '\n');
    out.append(note.content.as_str());
    proof {
        assert(out@ =~= spec_encode_note(note.name@, note.owner@, note.content@));
    }
    out
}

/// Splits `body` into its lines, as `str::lines` does.
fn split_lines(body: &str) -> (v: Vec<String>)
    ensures
        v@.len() == spec_lines(body@).len(),
        forall|i: int| 0 <= i < v@.len() ==> (#[trigger] v@[i])@ == spec_lines(body@)[i],
{
    let cs = chars_of(body);
    let n = cs.len();
    let mut out: Vec<String> = Vec::new();
    let ghost mut done: Seq<Seq<char>> = Seq::empty();
    let mut i: usize = 0;
    proof {
        assert(body@.skip(0) =~= body@);
    }
    while i < n
        invariant
            cs@ == body@,
            n == cs@.len(),
            i <= n,
            done + spec_lines(body@.skip(i as int)) == spec_lines(body@),
            done.len() == out@.len(),
            forall|t: int| 0 <= t < done.len() ==> (#[trigger] out@[t])@ == done[t],
        decreases n - i,
    {
        let ghost tail = body@.skip(i as int);
        // Find the end of the current line.
        let mut j = i;
        while j < n && cs[j] != '\n'
            invariant
                cs@ == body@,
                n == cs@.len(),
                i <= j <= n,
                forall|k: int| i <= k < j ==> body@[k] != '\n',
            decreases n - j,
        {
            j += 1;
        }
        proof {
            assert forall|k: int| 0 <= k < j - i implies tail[k] != '\n' by {
                assert(tail[k] == body@[i + k]);
            }
            if j < n {
                assert(tail[j - i] == body@[j as int]);
            }
            lemma_first_nl_eq(tail, j - i);
        }
        // Drop one trailing carriage return, as `str::lines` does.
        let end = if j > i && cs[j - 1] == '\r' {
            j - 1
        } else {
            j
        };
        let mut line = String::new();
        let mut k = i;
        while k < end
            invariant
                cs@ == body@,
                n == cs@.len(),
                i <= k <= end <= n,
                line@ == body@.subrange(i as int, k as int),
            decreases end - k,
        {
            push_char(&mut line, cs[k]);
            proof {
                assert(line@ =~= body@.subrange(i as int, k + 1));
            }
            k += 1;
        }
        proof {
            assert(line@ =~= strip_cr(tail.take(j - i))) by {
                assert(tail.take(j - i) =~= body@.subrange(i as int, j as int));
                if j > i && body@[j - 1] == '\r' {
                    assert(tail.take(j - i).last() == '\r');
                    assert(tail.take(j - i).drop_last() =~= body@.subrange(i as int, j - 1));
                } else {
                }
            }
        }
        out.push(line);
        if j == n {
            proof {
                assert(tail.take(j - i) =~= tail);
                assert(spec_lines(tail) == seq![strip_cr(tail)]);
                done = done.push(strip_cr(tail));
                assert(done + spec_lines(body@.skip(n as int)) =~= spec_lines(body@)) by {
                    assert(body@.skip(n as int) =~= Seq::<char>::empty());
                    assert(done =~= done.drop_last() + seq![strip_cr(tail)]);
                }
            }
            i = n;
        } else {
            proof {
                assert(spec_lines(tail) == seq![strip_cr(tail.take(j - i))] + spec_lines(
                    tail.skip(j - i + 1),
                ));
                assert(tail.skip(j - i + 1) =~= body@.skip(j + 1));
                done = done.push(strip_cr(tail.take(j - i)));
                assert(done + spec_lines(body@.skip(j + 1)) =~= spec_lines(body@));
            }
            i = j + 1;
        }
    }
    proof {
        assert(body@.skip(n as int) =~= Seq::<char>::empty());
        assert(done =~= spec_lines(body@));
    }
    out
}

/// Joins `ls[from..]` back with single newlines.
fn join_from(ls: &Vec<String>, from: usize) -> (r: String)
    requires
        from <= ls@.len(),
    ensures
        r@ == spec_join(ls@.skip(from as int).map_values(|x: String| x@)),
{
    let n = ls.len();
    let ghost target = ls@.skip(from as int).map_values(|x: String| x@);
    let mut out = String::new();
    if from >= n {
        proof {
            assert(target.len() == 0);
        }
        return out;
    }
    proof {
        lemma_join_tail_last(target);
        assert(target[0] == (ls@[from as int])@);
        assert(Seq::<char>::empty() + target[0] =~= target[0]);
    }
    out.append(ls[from].as_str());
    let mut i = from + 1;
    while i < n
        invariant
            from < i <= n,
            n == ls@.len(),
            target == ls@.skip(from as int).map_values(|x: String| x@),
            target.len() == n - from,
            forall|t: int| 0 <= t < target.len() ==> target[t] == (#[trigger] ls@[from + t])@,
            spec_join(target) == out@ + spec_join_tail(target, i - from),
        decreases n - i,
    {
        proof {
            lemma_join_tail_step(target, i - from);
        }
        push_char(&mut out, '\n');
        out.append(ls[i].as_str());
        i += 1;
    }
    proof {
        lemma_join_tail_last(target);
    }
    out
}

/// What remains of a join after the first `k` lines have been written: the
/// separator before line `k`, then the rest.
spec fn spec_join_tail(ls: Seq<Seq<char>>, k: int) -> Seq<char>
    decreases ls.len() - k when 0 <= k <= ls.len()
{
    if k >= ls.len() {
        Seq::empty()
    } else {
        seq!['\n'] + ls[k] + spec_join_tail(ls, k + 1)
    }
}

proof fn lemma_join_tail_step(ls: Seq<Seq<char>>, k: int)
    requires
        0 < k < ls.len(),
    ensures
        spec_join_tail(ls, k) == seq!['\n'] + ls[k] + spec_join_tail(ls, k + 1),
{
}

proof fn lemma_join_tail_last(ls: Seq<Seq<char>>)
    requires
        ls.len() > 0,
    ensures
        spec_join(ls) == ls[0] + spec_join_tail(ls, 1),
    decreases ls.len(),
{
    if ls.len() == 1 {
        assert(ls[0] + spec_join_tail(ls, 1) =~= ls[0]);
    } else {
        let rest = ls.drop_first();
        lemma_join_tail_last(rest);
        assert forall|k: int| 1 <= k <= rest.len() implies spec_join_tail(ls, k) =~= spec_join_tail(
            rest,
            k - 1,
        ) by {
            lemma_join_tail_shift(ls, k);
        }
        assert(ls[0] + seq!['\n'] + spec_join(rest) =~= ls[0] + spec_join_tail(ls, 1)) by {
            assert(spec_join_tail(ls, 1) =~= seq!['\n'] + ls[1] + spec_join_tail(ls, 2));
            assert(spec_join_tail(ls, 2) =~= spec_join_tail(rest, 1));
            assert(spec_join(rest) =~= rest[0] + spec_join_tail(rest, 1));
            assert(rest[0] == ls[1]);
        }
    }
}

proof fn lemma_join_tail_shift(ls: Seq<Seq<char>>, k: int)
    requires
        1 <= k <= ls.len(),
    ensures
        spec_join_tail(ls, k) =~= spec_join_tail(ls.drop_first(), k - 1),
    decreases ls.len() - k,
{
    if k < ls.len() {
        lemma_join_tail_shift(ls, k + 1);
        assert(ls.drop_first()[k - 1] == ls[k]);
    }
}

/// Parses a full note from a file body.
pub fn parse_note_file(id: u16, body: &str) -> (r: Result<Note>)
    ensures
        match r {
            Ok(n) => spec_parse_note(id, body@) == Ok::<NoteView, NoteError>(n@) && n.id == id,
            Err(e) => spec_parse_note(id, body@) == Err::<NoteView, NoteError>(e),
        },
{
    let lines = split_lines(body);
    if lines.len() < 2 {
        return Err(NoteError::Backend(BackendError::NoteCorrupted));
    }
    let content = join_from(&lines, 2);
    proof {
        assert(lines@.skip(2).map_values(|x: String| x@) =~= spec_lines(body@).skip(2)) by {
            assert forall|t: int|
                0 <= t < lines@.len() - 2 implies (#[trigger] lines@.skip(2)[t])@ == spec_lines(
                body@,
            ).skip(2)[t] by {
                assert(lines@.skip(2)[t] == lines@[t + 2]);
            }
        }
    }
    if str_is_blank(content.as_str()) {
        return Err(NoteError::Backend(BackendError::NoteCorrupted));
    }
    let name = lines[0].clone();
    let owner = lines[1].clone();
    Ok(Note { id, owner, name, content })
}

/// Parses a partial note from a file body: only the name and owner lines are
/// needed.
pub fn parse_partial_note_file(id: u16, body: &str) -> (r: Result<PartialNote>)
    ensures
        match r {
            Ok(p) => spec_parse_partial(id, body@) == Ok::<PartialNoteView, NoteError>(p@) && p.id
                == id,
            Err(e) => spec_parse_partial(id, body@) == Err::<PartialNoteView, NoteError>(e),
        },
{
    let lines = split_lines(body);
    if lines.len() < 2 {
        return Err(NoteError::Backend(BackendError::NoteCorrupted));
    }
    let name = lines[0].clone();
    let owner = lines[1].clone();
    Ok(PartialNote { id, owner, name })
}

/// Prepending a newline-free line and a newline: the new line splits off
/// whole.
proof fn lemma_lines_prefix(a: Seq<char>, rest: Seq<char>)
    requires
        !a.contains('\n'),
    ensures
        spec_lines(a + seq!['\n'] + rest) == seq![strip_cr(a)] + spec_lines(rest),
{
    let s = a + seq!['\n'] + rest;
    assert forall|k: int| 0 <= k < a.len() implies s[k] != '\n' by {
        assert(s[k] == a[k]);
        if a[k] == '\n' {
            assert(a.contains('\n'));
        }
    }
    assert(s[a.len() as int] == '\n');
    lemma_first_nl_eq(s, a.len() as int);
    assert(s.take(a.len() as int) =~= a);
    assert(s.skip(a.len() as int + 1) =~= rest);
}

/// No line that `str::lines` yields contains a newline.
proof fn lemma_lines_no_nl(s: Seq<char>)
    ensures
        forall|i: int|
            0 <= i < spec_lines(s).len() ==> !(#[trigger] spec_lines(s)[i]).contains('\n'),
    decreases s.len(),
{
    if s.len() > 0 {
        lemma_first_nl_bounds(s, 0);
        let j = first_nl_from(s, 0);
        let line0 = if j == s.len() {
            strip_cr(s)
        } else {
            strip_cr(s.take(j))
        };
        assert(!line0.contains('\n')) by {
            if line0.contains('\n') {
                let k = choose|k: int| 0 <= k < line0.len() && line0[k] == '\n';
                assert(s[k] == '\n');
            }
        }
        if j < s.len() {
            lemma_lines_no_nl(s.skip(j + 1));
            assert forall|i: int|
                0 <= i < spec_lines(s).len() implies !(#[trigger] spec_lines(s)[i]).contains(
                '\n',
            ) by {
                if i > 0 {
                    assert(spec_lines(s)[i] == spec_lines(s.skip(j + 1))[i - 1]);
                }
            }
        }
    }
}

/// Joining lines and splitting again gives the lines back, provided no line
/// holds a newline or ends in a carriage return, and the last line is not
/// empty.
proof fn lemma_lines_join(ls: Seq<Seq<char>>)
    requires
        forall|i: int| 0 <= i < ls.len() ==> !(#[trigger] ls[i]).contains('\n'),
        forall|i: int|
            0 <= i < ls.len() ==> ((#[trigger] ls[i]).len() == 0 || ls[i].last() != '\r'),
        ls.len() > 0 ==> ls.last().len() > 0,
    ensures
        spec_lines(spec_join(ls)) == ls,
    decreases ls.len(),
{
    if ls.len() == 0 {
        assert(spec_lines(spec_join(ls)) =~= ls);
    } else if ls.len() == 1 {
        let a = ls[0];
        assert(a.len() > 0) by {
            assert(ls.last() == a);
        }
        assert forall|k: int| 0 <= k < a.len() implies a[k] != '\n' by {
            if a[k] == '\n' {
                assert(a.contains('\n'));
            }
        }
        lemma_first_nl_eq(a, a.len() as int);
        assert(spec_lines(a) == seq![strip_cr(a)]);
        assert(strip_cr(a) == a);
        assert(seq![a] =~= ls);
    } else {
        let a = ls[0];
        let rest = ls.drop_first();
        assert(spec_join(ls) == a + seq!['\n'] + spec_join(rest));
        lemma_lines_prefix(a, spec_join(rest));
        assert forall|i: int| 0 <= i < rest.len() implies !(#[trigger] rest[i]).contains('\n')
            && (rest[i].len() == 0 || rest[i].last() != '\r') by {
            assert(rest[i] == ls[i + 1]);
        }
        assert(rest.last() == ls.last());
        lemma_lines_join(rest);
        assert(strip_cr(a) == a);
        assert(seq![a] + rest =~= ls);
    }
}

/// Two texts in a row are blank exactly when both are.
proof fn lemma_blank_concat(a: Seq<char>, b: Seq<char>)
    ensures
        is_blank(a + b) <==> is_blank(a) && is_blank(b),
{
    if is_blank(a + b) {
        assert forall|k: int| 0 <= k < a.len() implies is_space_char(#[trigger] a[k]) by {
            assert((a + b)[k] == a[k]);
        }
        assert forall|k: int| 0 <= k < b.len() implies is_space_char(#[trigger] b[k]) by {
            assert((a + b)[a.len() + k] == b[k]);
        }
    }
    if is_blank(a) && is_blank(b) {
        assert forall|k: int| 0 <= k < (a + b).len() implies is_space_char(#[trigger] (a + b)[k]) by {
            if k < a.len() {
                assert((a + b)[k] == a[k]);
            } else {
                assert((a + b)[k] == b[k - a.len()]);
            }
        }
    }
}

/// A join is blank exactly when every joined line is blank.
proof fn lemma_blank_join(ls: Seq<Seq<char>>)
    ensures
        is_blank(spec_join(ls)) <==> (forall|i: int|
            0 <= i < ls.len() ==> is_blank(#[trigger] ls[i])),
    decreases ls.len(),
{
    if ls.len() <= 1 {
    } else {
        let rest = ls.drop_first();
        lemma_blank_join(rest);
        lemma_blank_concat(ls[0], seq!['\n'] + spec_join(rest));
        lemma_blank_concat(seq!['\n'], spec_join(rest));
        assert(spec_join(ls) == ls[0] + (seq!['\n'] + spec_join(rest))) by {
            assert(ls[0] + seq!['\n'] + spec_join(rest) =~= ls[0] + (seq!['\n'] + spec_join(
                rest,
            )));
        }
        assert(is_blank(seq!['\n']));
        if is_blank(spec_join(ls)) {
            assert forall|i: int| 0 <= i < ls.len() implies is_blank(#[trigger] ls[i]) by {
                if i > 0 {
                    assert(rest[i - 1] == ls[i]);
                }
            }
        }
        if forall|i: int| 0 <= i < ls.len() ==> is_blank(#[trigger] ls[i]) {
            assert forall|i: int| 0 <= i < rest.len() implies is_blank(#[trigger] rest[i]) by {
                assert(rest[i] == ls[i + 1]);
            }
        }
    }
}

/// A text that is not blank has a line that is not blank.
proof fn lemma_nonblank_line(s: Seq<char>)
    requires
        !is_blank(s),
    ensures
        exists|i: int| 0 <= i < spec_lines(s).len() && !is_blank(#[trigger] spec_lines(s)[i]),
    decreases s.len(),
{
    let w = choose|w: int| 0 <= w < s.len() && !is_space_char(s[w]);
    lemma_first_nl_bounds(s, 0);
    let j = first_nl_from(s, 0);
    assert(s[w] != '\n' && s[w] != '\r');
    if w < j {
        let line0 = spec_lines(s)[0];
        assert(!is_blank(line0)) by {
            if j == s.len() {
                assert(line0 == strip_cr(s));
                assert(line0[w] == s[w]) by {
                    if s.len() > 0 && s.last() == '\r' {
                        assert(w < s.len() - 1);
                    }
                }
            } else {
                assert(line0 == strip_cr(s.take(j)));
                assert(line0[w] == s[w]) by {
                    if s.take(j).len() > 0 && s.take(j).last() == '\r' {
                        assert(s.take(j)[j - 1] == s[j - 1]);
                        assert(w < j - 1);
                    }
                }
            }
            assert(!is_space_char(line0[w]));
        }
    } else {
        assert(w > j);
        assert(j < s.len());
        let tail = s.skip(j + 1);
        assert(!is_blank(tail)) by {
            assert(tail[w - j - 1] == s[w]);
        }
        lemma_nonblank_line(tail);
        let i = choose|i: int|
            0 <= i < spec_lines(tail).len() && !is_blank(#[trigger] spec_lines(tail)[i]);
        assert(spec_lines(s)[i + 1] == spec_lines(tail)[i]);
        assert(!is_blank(spec_lines(s)[i + 1]));
    }
}

/// Law: the file format round-trips. Writing a note body and parsing it back
/// yields the same name and owner and the same content lines, provided the
/// name and owner contain no newline and do not end in a carriage return, the
/// content is not blank, no content line is left ending in a carriage return,
/// and the content's last line is not empty.
pub proof fn lemma_file_round_trip(id: u16, name: Seq<char>, owner: Seq<char>, content: Seq<char>)
    requires
        !name.contains('\n'),
        !owner.contains('\n'),
        name.len() > 0 ==> name.last() != '\r',
        owner.len() > 0 ==> owner.last() != '\r',
        !is_blank(content),
        forall|i: int|
            0 <= i < spec_lines(content).len() ==> ((#[trigger] spec_lines(content)[i]).len() == 0
                || spec_lines(content)[i].last() != '\r'),
        spec_lines(content).len() > 0 ==> spec_lines(content).last().len() > 0,
    ensures
        spec_parse_note(id, spec_encode_note(name, owner, content)) matches Ok(n) && n.id == id
            && n.name == name && n.owner == owner && n.content == spec_join(spec_lines(content))
            && spec_lines(n.content) == spec_lines(content),
{
    let body = spec_encode_note(name, owner, content);
    assert(body =~= name + seq!['\n'] + (owner + seq!['\n'] + content));
    lemma_lines_prefix(name, owner + seq!['\n'] + content);
    lemma_lines_prefix(owner, content);
    let ls = spec_lines(body);
    assert(ls == seq![name] + (seq![owner] + spec_lines(content))) by {
        assert(strip_cr(name) == name);
        assert(strip_cr(owner) == owner);
    }
    assert(ls.len() >= 2);
    assert(ls[0] == name);
    assert(ls[1] == owner);
    assert(ls.skip(2) =~= spec_lines(content));
    let joined = spec_join(spec_lines(content));
    assert(!is_blank(joined)) by {
        lemma_nonblank_line(content);
        lemma_blank_join(spec_lines(content));
    }
    lemma_lines_no_nl(content);
    lemma_lines_join(spec_lines(content));
}

/// The zeroes that pad the decimal numeral of `n` to five digits.
pub open spec fn pad5(n: int) -> Seq<char> {
    if n < 10 {
        seq!['0', '0', '0', '0']
    } else if n < 100 {
        seq!['0', '0', '0']
    } else if n < 1000 {
        seq!['0', '0']
    } else if n < 10000 {
        seq!['0']
    } else {
        Seq::empty()
    }
}

/// The file name of note `id`: its ID zero-padded to five digits, with the
/// note extension.
pub open spec fn spec_note_filename(id: u16) -> Seq<char> {
    pad5(id as int) + dec_digits(id as int) + seq!['.', 'n', 'o', 't', 'e']
}

/// Builds the file name of note `id`.
pub fn note_filename(id: u16) -> (r: String)
    ensures
        r@ == spec_note_filename(id),
{
    let mut out = String::new();
    if id < 10 {
        out.append("0000");
    } else if id < 100 {
        out.append("000");
    } else if id < 1000 {
        out.append("00");
    } else if id < 10000 {
        out.append("0");
    }
    proof {
        reveal_strlit("0000");
        reveal_strlit("000");
        reveal_strlit("00");
        reveal_strlit("0");
        assert(out@ =~= pad5(id as int));
    }
    push_dec_digits(&mut out, id);
    out.append(".note");
    proof {
        reveal_strlit(".note");
        assert(out@ =~= spec_note_filename(id));
    }
    out
}

} // verus!
